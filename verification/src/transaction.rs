//! Transactions: what one manager does, across several nodes, as if at one
//! moment.
//!
//! A transaction asks for locks on the nodes that it reads and writes, reads
//! and writes under those locks, and in the end releases them all with one
//! stamp, the commit basis. It never waits: what cannot be done yet is left
//! for the next pass, which the next answer of a node sets off.

use crate::actor::{Address, Context, Envelope, Version, VersionedAddress};
use crate::address_map::{AddressMap, AddressSet};
use crate::basis::{later, stamp_add, stamp_merge};
use crate::directory::Directory;
use crate::reactive::{handled, lock_released, Host, Reactive};
use crate::upgrade::{
    all_registered, committed, created_by, plan_messages, planned, registered_each, stops, Blueprint,
    Plan,
};
use crate::expr::eval::{ActionEvalContext, ExprEvalContext, Staged, UpgradeEvalContext};
use crate::expr::{Action, ActionView, Expr, Ident, Upgrade, Value, ValueView};
use crate::message::{BasisStamp, LockKind, Message, NodeKind, Stamp, StampedValue, TxId};
use vstd::prelude::*;

verus! {

/// What a transaction is to do.
#[derive(Debug, PartialEq, Eq)]
pub enum TransactionKind {
    Action(Action),
    Upgrade(Upgrade),
}

/// Why a transaction failed.
#[derive(Debug, Clone, Copy, PartialEq, Eq, Structural)]
pub enum TransactionError {
    /// A node was locked at another version than the transaction expected:
    /// the graph has changed under it.
    VersionMismatch { address: Address, expected: Version, granted: Version },
    /// A lock was granted that the transaction had not asked for.
    UnexpectedGrant { address: Address },
    /// A value arrived from a node that the transaction holds no lock on.
    UnexpectedValue { address: Address },
    /// An upgrade gives a new node a name that a node has already.
    NameTaken,
    /// An upgrade makes a definition that reads a node which neither exists
    /// and is locked, nor was created before the definition.
    Unresolved,
    /// No address is left for a node that an upgrade creates.
    NoAddress,
}

/// A lock that a transaction has asked for.
#[derive(Debug, Clone, Copy, PartialEq, Eq, Structural)]
pub struct PendingLock {
    pub kind: LockKind,
    /// The version that the node is expected to have, if any is.
    pub expected: Option<Version>,
}

/// A lock that a transaction holds.
#[derive(Debug, PartialEq, Eq)]
pub struct HeldLock {
    pub kind: LockKind,
    pub version: Version,
    pub node_kind: NodeKind,
    /// The value of the node as the transaction sees it: what the node has
    /// answered to a read, or what the transaction has written.
    pub value: Option<StampedValue>,
    /// Whether the node has answered a read.
    pub read: bool,
    /// Whether a read was sent that the node has not answered yet.
    pub reading: bool,
    /// Whether the transaction has written the node.
    pub wrote: bool,
}

impl HeldLock {
    /// What the lock adds to the commit basis `basis`: the stamp of the value
    /// that was read, and for a variable that was written the iteration that
    /// follows the one it was locked at.
    pub open spec fn contribution(&self, address: Address, basis: Stamp) -> Stamp {
        let with_read = if self.read && self.value is Some {
            stamp_merge(basis, self.value->Some_0.basis@)
        } else {
            basis
        };
        if self.wrote && self.node_kind is Variable {
            stamp_add(with_read, address, self.next_iteration())
        } else {
            with_read
        }
    }

    /// The iteration that a write under this lock gives the variable: the one
    /// after the iteration it was locked at, as far as iterations go.
    pub open spec fn next_iteration(&self) -> nat {
        match self.node_kind {
            NodeKind::Variable { iteration } => if iteration.0 < usize::MAX {
                (iteration.0 + 1) as nat
            } else {
                iteration.0 as nat
            },
            NodeKind::Definition { .. } => 0,
        }
    }
}

/// The commit basis of the first `n` of the locks `locks`, which are held on
/// the nodes at `addresses`.
pub open spec fn commit_basis_of(addresses: Seq<Address>, locks: Seq<HeldLock>, n: nat) -> Stamp
    decreases n,
{
    if n == 0 {
        Map::empty()
    } else {
        locks[n - 1].contribution(
            addresses[n - 1],
            commit_basis_of(addresses, locks, (n - 1) as nat),
        )
    }
}

/// Whether `envelope` releases the lock of `txid` on the node at `target`
/// with the stamp `basis`.
pub open spec fn is_release(
    envelope: Envelope,
    me: Address,
    target: Address,
    txid: TxId,
    basis: Stamp,
) -> bool {
    &&& envelope.sender == me
    &&& envelope.target == target
    &&& envelope.message matches Message::Release { txid: holder, basis: carried }
    &&& holder == txid
    &&& carried@ == basis
}

/// What an upgrade has staged for one node.
#[derive(Debug, PartialEq, Eq)]
pub enum StagedNode {
    /// The node is to be a variable with this value.
    Var(Ident, Value),
    /// The node is to be a definition with this expression. The value is what
    /// the expression evaluated to when it was staged, if it did.
    Def(Ident, Expr<Ident>, Option<Value>),
    /// The node is to be deleted.
    Del(VersionedAddress),
}

impl StagedNode {
    /// What is staged, as mathematics.
    pub open spec fn view(&self) -> Staged {
        match self {
            StagedNode::Var(ident, value) => Staged::Var(*ident, value@),
            StagedNode::Def(ident, expr, _) => Staged::Def(*ident, expr@),
            StagedNode::Del(address) => Staged::Del(*address),
        }
    }

    /// What the node that `ident` names is read as once this is staged, if
    /// this is staged for that node: the value of a variable, the value that
    /// a definition had when it was staged, and nothing for a node that is
    /// deleted.
    pub open spec fn shows(&self, ident: Ident) -> Option<Option<ValueView>> {
        match self {
            StagedNode::Var(staged, value) => if staged@ == ident@ {
                Some(Some(value@))
            } else {
                None
            },
            StagedNode::Def(staged, _, value) => if staged@ == ident@ {
                Some(
                    match value {
                        Some(v) => Some(v@),
                        None => None,
                    },
                )
            } else {
                None
            },
            StagedNode::Del(address) => if Ident::Existing(*address)@ == ident@ {
                Some(None)
            } else {
                None
            },
        }
    }
}

/// What the node that `ident` names is read as by an upgrade that has staged
/// `staged` and holds the locks `locks`: what was staged last for the node,
/// and else what was read under the lock.
pub open spec fn found(staged: Seq<StagedNode>, locks: Map<Address, HeldLock>, ident: Ident) -> Option<
    ValueView,
>
    decreases staged.len(),
{
    if staged.len() == 0 {
        match ident {
            Ident::Existing(node) => seen(locks, node),
            Ident::New(_) => None,
        }
    } else {
        match staged.last().shows(ident) {
            Some(shown) => shown,
            None => found(staged.drop_last(), locks, ident),
        }
    }
}

/// The locks of a transaction, and what it has read, written and staged
/// under them.
#[derive(Debug, PartialEq, Eq)]
pub struct TransactionState {
    id: TxId,
    may_write: AddressSet,
    pending_locks: AddressMap<PendingLock>,
    locks: AddressMap<HeldLock>,
    unsent: Vec<(Address, Value)>,
    staged: Vec<StagedNode>,
}

impl TransactionState {
    /// The transaction's identifier.
    pub closed spec fn id(&self) -> TxId {
        self.id
    }

    /// The nodes that the transaction may write.
    pub closed spec fn may_write(&self) -> Set<Address> {
        self.may_write@
    }

    /// The locks that the transaction has asked for and not been granted.
    pub closed spec fn pending(&self) -> Map<Address, PendingLock> {
        self.pending_locks@
    }

    /// The locks that the transaction holds.
    pub closed spec fn locks(&self) -> Map<Address, HeldLock> {
        self.locks@
    }

    /// The nodes that the transaction holds locks on, in the order in which
    /// the locks were granted.
    pub closed spec fn lock_order(&self) -> Seq<Address> {
        self.locks.keys()
    }

    /// The locks that the transaction holds, in the order of `lock_order`.
    pub closed spec fn lock_states(&self) -> Seq<HeldLock> {
        self.locks.values()
    }

    /// The writes that the transaction has made and not yet sent to their
    /// nodes.
    pub closed spec fn unsent(&self) -> Seq<(Address, Value)> {
        self.unsent@
    }

    /// What the upgrade has staged, in order.
    pub closed spec fn staged_nodes(&self) -> Seq<StagedNode> {
        self.staged@
    }

    /// Whether the transaction waits for no lock.
    pub fn nothing_pending(&self) -> (b: bool)
        ensures
            b == (self.pending() == Map::<Address, PendingLock>::empty()),
    {
        self.pending_locks.is_empty()
    }

    /// What the upgrade has staged.
    pub fn staged_ref(&self) -> (staged: &Vec<StagedNode>)
        ensures
            staged@ == self.staged_nodes(),
    {
        &self.staged
    }

    /// The locks that the transaction holds.
    pub fn locks_ref(&self) -> (locks: &AddressMap<HeldLock>)
        ensures
            locks@ == self.locks(),
            locks.keys() == self.lock_order(),
            locks.values() == self.lock_states(),
    {
        &self.locks
    }

    /// The commit basis: what all the locks contribute.
    pub open spec fn commit_basis(&self) -> Stamp {
        commit_basis_of(self.lock_order(), self.lock_states(), self.lock_order().len())
    }

    /// The state of a transaction that has not started.
    pub fn new(id: TxId) -> (state: TransactionState)
        ensures
            state.id() == id,
            state.may_write() == Set::<Address>::empty(),
            state.pending() == Map::<Address, PendingLock>::empty(),
            state.locks() == Map::<Address, HeldLock>::empty(),
            state.lock_order() == Seq::<Address>::empty(),
            state.lock_states() == Seq::<HeldLock>::empty(),
            state.unsent() == Seq::<(Address, Value)>::empty(),
            state.staged_nodes() == Seq::<StagedNode>::empty(),
    {
        TransactionState {
            id,
            may_write: AddressSet::new(),
            pending_locks: AddressMap::new(),
            locks: AddressMap::new(),
            unsent: Vec::new(),
            staged: Vec::new(),
        }
    }

    /// Notes that the transaction may write the node at `address`.
    pub fn note_write(&mut self, address: Address)
        ensures
            final(self).may_write() == old(self).may_write().insert(address),
            final(self).id() == old(self).id(),
            final(self).staged_nodes() == old(self).staged_nodes(),
            final(self).pending() == old(self).pending(),
            final(self).locks() == old(self).locks(),
            final(self).lock_order() == old(self).lock_order(),
            final(self).lock_states() == old(self).lock_states(),
            final(self).unsent() == old(self).unsent(),
    {
        let _ = self.may_write.insert(address);
    }

    /// Asks for a lock on `node`, unless the transaction holds one or has
    /// asked for one. A node that the transaction may write is locked
    /// exclusively even where `kind` asks for less: no lock is ever upgraded.
    /// Returns whether a request was sent.
    pub fn request<A>(&mut self, node: VersionedAddress, kind: LockKind, ctx: &mut Context<A>) -> (sent:
        bool)
        ensures
            final(ctx).extends(old(ctx)),
            final(ctx).spawned() == old(ctx).spawned(),
            final(ctx).retired() == old(ctx).retired(),
            final(self).id() == old(self).id(),
            final(self).staged_nodes() == old(self).staged_nodes(),
            final(self).may_write() == old(self).may_write(),
            final(self).locks() == old(self).locks(),
            final(self).lock_order() == old(self).lock_order(),
            final(self).lock_states() == old(self).lock_states(),
            final(self).unsent() == old(self).unsent(),
            sent == !(old(self).locks().contains_key(node.address) || old(self).pending().contains_key(node.address)),
            if sent {
                let asked = if old(self).may_write().contains(node.address) {
                    LockKind::Exclusive
                } else {
                    kind
                };
                &&& final(self).pending() == old(self).pending().insert(
                    node.address,
                    PendingLock { kind: asked, expected: Some(node.version) },
                )
                &&& final(ctx).sent() == old(ctx).sent().push(
                    Envelope {
                        sender: old(ctx).spec_me(),
                        target: node.address,
                        message: Message::Lock { txid: old(self).id(), kind: asked },
                    },
                )
            } else {
                &&& final(self).pending() == old(self).pending()
                &&& final(ctx).sent() == old(ctx).sent()
            },
    {
        if self.locks.contains_key(node.address) || self.pending_locks.contains_key(node.address) {
            return false;
        }
        let asked = if self.may_write.contains(node.address) {
            LockKind::Exclusive
        } else {
            kind
        };
        let _ = self.pending_locks.insert(
            node.address,
            PendingLock { kind: asked, expected: Some(node.version) },
        );
        ctx.send(node.address, Message::Lock { txid: self.id, kind: asked });
        true
    }

    /// Takes note that the node at `address` has retired before it could
    /// grant a lock: the transaction no longer waits for that lock. Returns
    /// whether it had waited for it.
    pub fn unreachable(&mut self, address: Address) -> (waited: bool)
        ensures
            final(self).id() == old(self).id(),
            final(self).staged_nodes() == old(self).staged_nodes(),
            final(self).may_write() == old(self).may_write(),
            final(self).locks() == old(self).locks(),
            final(self).lock_order() == old(self).lock_order(),
            final(self).lock_states() == old(self).lock_states(),
            final(self).unsent() == old(self).unsent(),
            waited == old(self).pending().contains_key(address),
            final(self).pending() == old(self).pending().remove(address),
    {
        self.pending_locks.remove(address).is_some()
    }

    /// Why the transaction refuses a lock that the node at `address` grants
    /// at `version`, if it does: the lock was not asked for, or it was asked
    /// for at another version.
    pub open spec fn refuses(&self, address: Address, version: Version) -> Option<TransactionError> {
        if !self.pending().contains_key(address) {
            Some(TransactionError::UnexpectedGrant { address })
        } else {
            match self.pending()[address].expected {
                Some(expected) => if expected != version {
                    Some(TransactionError::VersionMismatch { address, expected, granted: version })
                } else {
                    None
                },
                None => None,
            }
        }
    }

    /// Whether this is the transaction `before` once it has taken note of
    /// the lock that the node at `address`, which is of the kind `node_kind`,
    /// has granted at `version`: the transaction no longer waits for the
    /// lock, and holds it as the last of its locks, with nothing read or
    /// written.
    pub open spec fn granted(
        &self,
        before: TransactionState,
        address: Address,
        version: Version,
        node_kind: NodeKind,
    ) -> bool {
        let lock = HeldLock {
            kind: before.pending()[address].kind,
            version,
            node_kind,
            value: None,
            read: false,
            reading: false,
            wrote: false,
        };
        &&& self.id() == before.id()
        &&& self.staged_nodes() == before.staged_nodes()
        &&& self.may_write() == before.may_write()
        &&& self.unsent() == before.unsent()
        &&& self.pending() == before.pending().remove(address)
        &&& self.locks() == before.locks().insert(address, lock)
        &&& self.lock_order() == if before.locks().contains_key(address) {
            before.lock_order()
        } else {
            before.lock_order().push(address)
        }
        &&& self.lock_states() == if before.locks().contains_key(address) {
            before.lock_states().update(before.lock_order().index_of(address), lock)
        } else {
            before.lock_states().push(lock)
        }
    }

    /// Whether this is the transaction `before` once it has taken note of
    /// the value `value` that the node at `address`, which it holds a lock
    /// on, has answered to a read: the value is what the transaction sees at
    /// the node, unless it has written the node.
    pub open spec fn answered(&self, before: TransactionState, address: Address, value: StampedValue) -> bool {
        let at = before.lock_order().index_of(address);
        let lock = before.lock_states()[at];
        &&& self.id() == before.id()
        &&& self.staged_nodes() == before.staged_nodes()
        &&& self.may_write() == before.may_write()
        &&& self.pending() == before.pending()
        &&& self.unsent() == before.unsent()
        &&& self.lock_order() == before.lock_order()
        &&& self.lock_states() == before.lock_states().update(
            at,
            HeldLock {
                kind: lock.kind,
                version: lock.version,
                node_kind: lock.node_kind,
                value: if lock.wrote {
                    lock.value
                } else {
                    Some(value)
                },
                read: true,
                reading: false,
                wrote: lock.wrote,
            },
        )
    }

    /// Takes note of a lock that the node at `address` has granted. The lock
    /// must have been asked for, and the node must have the version that was
    /// expected; else the transaction has failed, and nothing changes.
    pub fn lock_granted(&mut self, address: Address, version: Version, node_kind: NodeKind) -> (outcome:
        Result<(), TransactionError>)
        ensures
            outcome == match old(self).refuses(address, version) {
                Some(error) => Err::<(), TransactionError>(error),
                None => Ok::<(), TransactionError>(()),
            },
            outcome is Ok ==> final(self).granted(*old(self), address, version, node_kind),
            outcome is Err ==> *final(self) == *old(self),
            final(self).id() == old(self).id(),
            final(self).staged_nodes() == old(self).staged_nodes(),
            final(self).may_write() == old(self).may_write(),
            final(self).unsent() == old(self).unsent(),
            match outcome {
                Ok(_) => {
                    &&& old(self).pending().contains_key(address)
                    &&& old(self).pending()[address].expected matches Some(v) ==> v == version
                    &&& final(self).pending() == old(self).pending().remove(address)
                    &&& final(self).locks() == old(self).locks().insert(
                        address,
                        HeldLock {
                            kind: old(self).pending()[address].kind,
                            version,
                            node_kind,
                            value: None,
                            read: false,
                            reading: false,
                            wrote: false,
                        },
                    )
                },
                Err(error) => {
                    &&& final(self).pending() == old(self).pending()
                    &&& final(self).locks() == old(self).locks()
                    &&& final(self).lock_order() == old(self).lock_order()
                    &&& final(self).lock_states() == old(self).lock_states()
                    &&& if !old(self).pending().contains_key(address) {
                        error == (TransactionError::UnexpectedGrant { address })
                    } else {
                        &&& old(self).pending()[address].expected matches Some(expected)
                        &&& expected != version
                        &&& error == (TransactionError::VersionMismatch {
                            address,
                            expected,
                            granted: version,
                        })
                    }
                },
            },
    {
        let pending = match self.pending_locks.get(address) {
            None => {
                return Err(TransactionError::UnexpectedGrant { address });
            },
            Some(pending) => *pending,
        };
        match pending.expected {
            Some(expected) => {
                if !(expected == version) {
                    return Err(
                        TransactionError::VersionMismatch { address, expected, granted: version },
                    );
                }
            },
            None => {},
        }
        let _ = self.pending_locks.remove(address);
        let _ = self.locks.insert(
            address,
            HeldLock {
                kind: pending.kind,
                version,
                node_kind,
                value: None,
                read: false,
                reading: false,
                wrote: false,
            },
        );
        Ok(())
    }

    /// Takes note of the value that the node at `address` has answered to a
    /// read. A value from a node that is not locked changes nothing.
    pub fn read_result(&mut self, address: Address, value: StampedValue) -> (outcome: Result<
        (),
        TransactionError,
    >)
        ensures
            outcome is Ok <==> old(self).locks().contains_key(address),
            outcome is Ok ==> final(self).answered(*old(self), address, value),
            outcome is Err ==> *final(self) == *old(self),
            final(self).id() == old(self).id(),
            final(self).staged_nodes() == old(self).staged_nodes(),
            final(self).may_write() == old(self).may_write(),
            final(self).pending() == old(self).pending(),
            final(self).unsent() == old(self).unsent(),
            final(self).lock_order() == old(self).lock_order(),
            match outcome {
                Ok(_) => {
                    let at = old(self).lock_order().index_of(address);
                    let lock = old(self).lock_states()[at];
                    &&& old(self).locks().contains_key(address)
                    &&& final(self).lock_states() == old(self).lock_states().update(
                        at,
                        HeldLock {
                            kind: lock.kind,
                            version: lock.version,
                            node_kind: lock.node_kind,
                            value: if lock.wrote {
                                lock.value
                            } else {
                                Some(value)
                            },
                            read: true,
                            reading: false,
                            wrote: lock.wrote,
                        },
                    )
                },
                Err(error) => {
                    &&& !old(self).locks().contains_key(address)
                    &&& error == (TransactionError::UnexpectedValue { address })
                    &&& final(self).lock_states() == old(self).lock_states()
                    &&& final(self).locks() == old(self).locks()
                },
            },
    {
        match self.locks.find(address) {
            None => Err(TransactionError::UnexpectedValue { address }),
            Some(at) => {
                let lock = self.locks.value_at_mut(at);
                if !lock.wrote {
                    lock.value = Some(value);
                }
                lock.read = true;
                lock.reading = false;
                Ok(())
            },
        }
    }

    /// Computes the commit basis: the stamps of all the values that were
    /// read, merged, and for every variable that was written the iteration
    /// that the write gives it.
    pub fn compute_commit_basis(&self) -> (basis: BasisStamp)
        ensures
            basis@ == self.commit_basis(),
    {
        let mut basis = BasisStamp::empty();
        let n = self.locks.len();
        let mut i: usize = 0;
        while i < n
            invariant
                i <= n,
                n == self.locks.keys().len(),
                n == self.locks.values().len(),
                basis@ == commit_basis_of(self.locks.keys(), self.locks.values(), i as nat),
            decreases n - i,
        {
            let address = self.locks.key_at(i);
            let lock = self.locks.value_at(i);
            if lock.read {
                match &lock.value {
                    Some(value) => {
                        basis.merge_from(&value.basis);
                    },
                    None => {},
                }
            }
            if lock.wrote {
                match &lock.node_kind {
                    NodeKind::Variable { iteration } => {
                        let next = if iteration.0 < usize::MAX {
                            iteration.increment()
                        } else {
                            *iteration
                        };
                        basis.add(address, next);
                    },
                    NodeKind::Definition { .. } => {},
                }
            }
            i += 1;
        }
        basis
    }

    /// Releases every lock with the stamp `basis`, in the order in which the
    /// locks were granted: every node that the transaction holds a lock on is
    /// sent the same stamp, and the transaction holds no lock afterwards.
    pub fn release_all<A>(&mut self, basis: &BasisStamp, ctx: &mut Context<A>)
        ensures
            final(ctx).extends(old(ctx)),
            final(ctx).spawned() == old(ctx).spawned(),
            final(ctx).retired() == old(ctx).retired(),
            final(self).id() == old(self).id(),
            final(self).staged_nodes() == old(self).staged_nodes(),
            final(self).may_write() == old(self).may_write(),
            final(self).pending() == old(self).pending(),
            final(self).unsent() == old(self).unsent(),
            final(self).locks() == Map::<Address, HeldLock>::empty(),
            final(self).lock_order() == Seq::<Address>::empty(),
            final(ctx).sent().len() == old(ctx).sent().len() + old(self).lock_order().len(),
            forall|i: int|
                0 <= i < old(self).lock_order().len() ==> is_release(
                    #[trigger] final(ctx).sent()[old(ctx).sent().len() + i],
                    old(ctx).spec_me(),
                    old(self).lock_order()[i],
                    old(self).id(),
                    basis@,
                ),
    {
        let me = ctx.me();
        let ghost sent0 = ctx.sent();
        let n = self.locks.len();
        let mut i: usize = 0;
        while i < n
            invariant
                i <= n,
                n == self.locks.keys().len(),
                *self == *old(self),
                ctx.spec_me() == me,
                ctx.extends(old(ctx)),
                ctx.spawned() == old(ctx).spawned(),
                ctx.retired() == old(ctx).retired(),
                sent0 == old(ctx).sent(),
                ctx.sent().len() == sent0.len() + i,
                forall|k: int|
                    0 <= k < i ==> is_release(
                        #[trigger] ctx.sent()[sent0.len() + k],
                        me,
                        self.locks.keys()[k],
                        self.id,
                        basis@,
                    ),
            decreases n - i,
        {
            let target = self.locks.key_at(i);
            let ghost before = ctx.sent();
            ctx.send(target, Message::Release { txid: self.id, basis: basis.clone() });
            proof {
                assert forall|k: int| 0 <= k < i + 1 implies is_release(
                    #[trigger] ctx.sent()[sent0.len() + k],
                    me,
                    self.locks.keys()[k],
                    self.id,
                    basis@,
                ) by {
                    if k < i {
                        assert(ctx.sent()[sent0.len() + k] == before[sent0.len() + k]);
                    }
                }
            }
            i += 1;
        }
        self.locks = AddressMap::new();
    }

    /// Gives every lock up without committing anything, and takes back every
    /// request for a lock: each node that the transaction holds a lock on is
    /// sent an abort, in the order in which the locks were granted.
    pub fn abort_all<A>(&mut self, ctx: &mut Context<A>)
        ensures
            final(ctx).extends(old(ctx)),
            final(ctx).spawned() == old(ctx).spawned(),
            final(ctx).retired() == old(ctx).retired(),
            final(self).id() == old(self).id(),
            final(self).staged_nodes() == old(self).staged_nodes(),
            final(self).may_write() == old(self).may_write(),
            final(self).pending() == old(self).pending(),
            final(self).locks() == Map::<Address, HeldLock>::empty(),
            final(self).lock_order() == Seq::<Address>::empty(),
            final(self).unsent() == Seq::<(Address, Value)>::empty(),
            final(ctx).sent().len() == old(ctx).sent().len() + old(self).lock_order().len(),
            forall|i: int|
                0 <= i < old(self).lock_order().len() ==> #[trigger] final(ctx).sent()[old(ctx).sent().len() + i] == (Envelope {
                    sender: old(ctx).spec_me(),
                    target: old(self).lock_order()[i],
                    message: Message::Abort { txid: old(self).id() },
                }),
    {
        let me = ctx.me();
        let ghost sent0 = ctx.sent();
        let n = self.locks.len();
        let mut i: usize = 0;
        while i < n
            invariant
                i <= n,
                n == self.locks.keys().len(),
                *self == *old(self),
                ctx.spec_me() == me,
                ctx.extends(old(ctx)),
                ctx.spawned() == old(ctx).spawned(),
                ctx.retired() == old(ctx).retired(),
                sent0 == old(ctx).sent(),
                ctx.sent().len() == sent0.len() + i,
                forall|k: int|
                    0 <= k < i ==> #[trigger] ctx.sent()[sent0.len() + k] == (Envelope {
                        sender: me,
                        target: self.locks.keys()[k],
                        message: Message::Abort { txid: self.id },
                    }),
            decreases n - i,
        {
            let target = self.locks.key_at(i);
            let ghost before = ctx.sent();
            ctx.send(target, Message::Abort { txid: self.id });
            proof {
                assert forall|k: int| 0 <= k < i + 1 implies #[trigger] ctx.sent()[sent0.len() + k]
                    == (Envelope {
                    sender: me,
                    target: self.locks.keys()[k],
                    message: Message::Abort { txid: self.id },
                }) by {
                    if k < i {
                        assert(ctx.sent()[sent0.len() + k] == before[sent0.len() + k]);
                    }
                }
            }
            i += 1;
        }
        self.locks = AddressMap::new();
        self.unsent = Vec::new();
    }
}

/// The value that the transaction sees at `node`, if it holds a lock on the
/// node at that version and has read or written it.
pub open spec fn seen(locks: Map<Address, HeldLock>, node: VersionedAddress) -> Option<ValueView> {
    if locks.contains_key(node.address) && locks[node.address].version == node.version
        && locks[node.address].value is Some {
        Some(locks[node.address].value->Some_0.value@)
    } else {
        None
    }
}

/// Whether the transaction can write `node`: it holds the exclusive lock on
/// it, at that version, and the node is a variable.
pub open spec fn can_write(locks: Map<Address, HeldLock>, node: VersionedAddress) -> bool {
    &&& locks.contains_key(node.address)
    &&& locks[node.address].version == node.version
    &&& locks[node.address].kind is Exclusive
    &&& locks[node.address].node_kind is Variable
}

/// Whether the writes `log` write the node `node`.
pub open spec fn written_to(log: Seq<(VersionedAddress, ValueView)>, node: VersionedAddress) -> bool {
    exists|k: int| 0 <= k < log.len() && (#[trigger] log[k]).0 == node
}

/// The value that the writes `log` write to the node `node` last.
pub open spec fn last_written(log: Seq<(VersionedAddress, ValueView)>, node: VersionedAddress) -> ValueView
    decreases log.len(),
{
    if log.len() == 0 {
        ValueView::Integer(0)
    } else if log.last().0 == node {
        log.last().1
    } else {
        last_written(log.drop_last(), node)
    }
}

/// One more write is written to its node, and to no other.
pub proof fn lemma_written_push(
    log: Seq<(VersionedAddress, ValueView)>,
    node: VersionedAddress,
    value: ValueView,
    other: VersionedAddress,
)
    ensures
        written_to(log.push((node, value)), other) == (written_to(log, other) || other == node),
        last_written(log.push((node, value)), other) == if other == node {
            value
        } else {
            last_written(log, other)
        },
{
    let more = log.push((node, value));
    assert(more.drop_last() =~= log);
    if written_to(log, other) {
        let k = choose|k: int| 0 <= k < log.len() && (#[trigger] log[k]).0 == other;
        assert(more[k].0 == other);
    }
    if other == node {
        assert(more[log.len() as int].0 == other);
    }
    if written_to(more, other) && other != node {
        let k = choose|k: int| 0 <= k < more.len() && (#[trigger] more[k]).0 == other;
        assert(log[k].0 == other);
    }
}

/// Whether `after` are the writes that wait to be sent once the writes `log`
/// have joined `before`.
pub open spec fn unsent_since(
    before: Seq<(Address, Value)>,
    after: Seq<(Address, Value)>,
    log: Seq<(VersionedAddress, ValueView)>,
) -> bool {
    &&& after.len() == before.len() + log.len()
    &&& forall|k: int| 0 <= k < before.len() ==> (#[trigger] after[k]) == before[k]
    &&& forall|k: int|
        0 <= k < log.len() ==> (#[trigger] after[before.len() + k]).0 == log[k].0.address && after[
            before.len() + k].1@ == log[k].1
}

/// Whether `after` is the lock `before` on the node at `address` once the
/// writes `log` were made: a lock whose node was written is marked so, and
/// shows the value that was written last, under the stamp of the value that
/// it showed before.
pub open spec fn lock_since(
    address: Address,
    before: HeldLock,
    after: HeldLock,
    log: Seq<(VersionedAddress, ValueView)>,
) -> bool {
    let node = VersionedAddress { address, version: before.version };
    &&& after.kind == before.kind
    &&& after.version == before.version
    &&& after.node_kind == before.node_kind
    &&& after.read == before.read
    &&& after.reading == before.reading
    &&& after.wrote == (before.wrote || written_to(log, node))
    &&& if written_to(log, node) {
        &&& after.value is Some
        &&& after.value->Some_0.value@ == last_written(log, node)
        &&& after.value->Some_0.basis@ == match before.value {
            Some(shown) => shown.basis@,
            None => Map::empty(),
        }
    } else {
        after.value == before.value
    }
}

/// The locks `locks`, which are held on the nodes at `addresses`, each marked
/// as written where the writes `log` write its node.
pub open spec fn marked_written(
    addresses: Seq<Address>,
    locks: Seq<HeldLock>,
    log: Seq<(VersionedAddress, ValueView)>,
) -> Seq<HeldLock> {
    Seq::new(
        locks.len(),
        |i: int|
            HeldLock {
                kind: locks[i].kind,
                version: locks[i].version,
                node_kind: locks[i].node_kind,
                value: locks[i].value,
                read: locks[i].read,
                reading: locks[i].reading,
                wrote: locks[i].wrote || written_to(
                    log,
                    VersionedAddress { address: addresses[i], version: locks[i].version },
                ),
            },
    )
}

/// The commit basis after writes is the commit basis of the locks as they
/// were, with those marked as written whose nodes were written.
pub proof fn lemma_commit_basis_since(
    addresses: Seq<Address>,
    before: Seq<HeldLock>,
    after: Seq<HeldLock>,
    log: Seq<(VersionedAddress, ValueView)>,
    n: nat,
)
    requires
        n <= before.len(),
        before.len() == after.len(),
        before.len() == addresses.len(),
        forall|i: int|
            0 <= i < before.len() ==> lock_since(addresses[i], before[i], #[trigger] after[i], log),
    ensures
        commit_basis_of(addresses, after, n) == commit_basis_of(
            addresses,
            marked_written(addresses, before, log),
            n,
        ),
    decreases n,
{
    if n > 0 {
        lemma_commit_basis_since(addresses, before, after, log, (n - 1) as nat);
        assert(lock_since(addresses[n - 1], before[n - 1], after[n - 1], log));
        crate::basis::lemma_merge_empty(commit_basis_of(addresses, after, (n - 1) as nat));
    }
}

impl ExprEvalContext<Ident> for TransactionState {
    open spec fn known(&self, ident: Ident) -> Option<ValueView> {
        found(self.staged_nodes(), self.locks(), ident)
    }

    fn read(&self, ident: &Ident) -> (value: Option<&Value>) {
        let mut i: usize = self.staged.len();
        proof {
            assert(self.staged@.take(i as int) =~= self.staged@);
        }
        while i > 0
            invariant
                i <= self.staged@.len(),
                found(self.staged@, self.locks@, *ident) == found(
                    self.staged@.take(i as int),
                    self.locks@,
                    *ident,
                ),
            decreases i,
        {
            i -= 1;
            proof {
                assert(self.staged@.take(i + 1).drop_last() =~= self.staged@.take(i as int));
                assert(self.staged@.take(i + 1).last() == self.staged@[i as int]);
            }
            match &self.staged[i] {
                StagedNode::Var(staged, value) => {
                    if staged.same(ident) {
                        return Some(value);
                    }
                },
                StagedNode::Def(staged, _, value) => {
                    if staged.same(ident) {
                        return value.as_ref();
                    }
                },
                StagedNode::Del(address) => {
                    if Ident::Existing(*address).same(ident) {
                        return None;
                    }
                },
            }
        }
        proof {
            assert(self.staged@.take(0) =~= Seq::<StagedNode>::empty());
        }
        match ident {
            Ident::Existing(node) => ExprEvalContext::<VersionedAddress>::read(self, node),
            Ident::New(_) => None,
        }
    }
}

impl UpgradeEvalContext for TransactionState {
    open spec fn staged(&self) -> Seq<Staged> {
        Seq::new(self.staged_nodes().len(), |i: int| self.staged_nodes()[i]@)
    }

    open spec fn grows(&self, later: &Self) -> bool {
        &&& later.id() == self.id()
        &&& later.may_write() == self.may_write()
        &&& later.pending() == self.pending()
        &&& later.locks() == self.locks()
        &&& later.lock_order() == self.lock_order()
        &&& later.lock_states() == self.lock_states()
        &&& later.unsent() == self.unsent()
    }

    fn var(&mut self, ident: Ident, value: Value)
        ensures
            final(self).staged_nodes() == old(self).staged_nodes().push(StagedNode::Var(ident, value)),
    {
        let ghost before = self.staged@;
        self.staged.push(StagedNode::Var(ident, value));
        proof {
            assert(self.staged@.drop_last() =~= before);
            assert(UpgradeEvalContext::staged(self) =~= UpgradeEvalContext::staged(old(self)).push(
                Staged::Var(ident, value@),
            ));
        }
    }

    fn def(&mut self, ident: Ident, expr: Expr<Ident>)
        ensures
            final(self).staged_nodes().len() == old(self).staged_nodes().len() + 1,
            final(self).staged_nodes().drop_last() == old(self).staged_nodes(),
    {
        let ghost before = self.staged@;
        let value = expr.value_in(&*self);
        self.staged.push(StagedNode::Def(ident, expr, value));
        proof {
            assert(self.staged@.drop_last() =~= before);
            assert(UpgradeEvalContext::staged(self) =~= UpgradeEvalContext::staged(old(self)).push(
                Staged::Def(ident, expr@),
            ));
        }
    }

    fn del(&mut self, address: VersionedAddress)
        ensures
            final(self).staged_nodes() == old(self).staged_nodes().push(StagedNode::Del(address)),
    {
        let ghost before = self.staged@;
        self.staged.push(StagedNode::Del(address));
        proof {
            assert(self.staged@.drop_last() =~= before);
            assert(UpgradeEvalContext::staged(self) =~= UpgradeEvalContext::staged(old(self)).push(
                Staged::Del(address),
            ));
        }
    }
}

impl ExprEvalContext<VersionedAddress> for TransactionState {
    open spec fn known(&self, ident: VersionedAddress) -> Option<ValueView> {
        seen(self.locks(), ident)
    }

    fn read(&self, ident: &VersionedAddress) -> (value: Option<&Value>) {
        match self.locks.get(ident.address) {
            Some(lock) => {
                if lock.version == ident.version {
                    match &lock.value {
                        Some(stamped) => Some(&stamped.value),
                        None => None,
                    }
                } else {
                    None
                }
            },
            None => None,
        }
    }
}

impl ActionEvalContext for TransactionState {
    open spec fn writable(&self, address: VersionedAddress) -> bool {
        can_write(self.locks(), address)
    }

    open spec fn writes_since(&self, earlier: &Self, log: Seq<(VersionedAddress, ValueView)>) -> bool {
        &&& self.id() == earlier.id()
        &&& self.may_write() == earlier.may_write()
        &&& self.pending() == earlier.pending()
        &&& self.staged_nodes() == earlier.staged_nodes()
        &&& self.lock_order() == earlier.lock_order()
        &&& self.locks().dom() == earlier.locks().dom()
        &&& self.lock_states().len() == earlier.lock_states().len()
        &&& unsent_since(earlier.unsent(), self.unsent(), log)
        &&& forall|i: int|
            0 <= i < earlier.lock_states().len() ==> lock_since(
                earlier.lock_order()[i],
                earlier.lock_states()[i],
                #[trigger] self.lock_states()[i],
                log,
            )
    }


    /// Writes `value` to the node at `address`, as far as the transaction is
    /// concerned: the node has that value from now on, and the write waits to
    /// be sent to the node.
    fn write(&mut self, address: &VersionedAddress, value: &Value) -> (done: bool)
        ensures
            !done ==> *final(self) == *old(self),
    {
        let at = match self.locks.find(address.address) {
            Some(at) => at,
            None => {
                return false;
            },
        };
        let able = {
            let lock = self.locks.value_at(at);
            lock.version == address.version && match lock.kind {
                LockKind::Exclusive => true,
                LockKind::Shared => false,
            } && match &lock.node_kind {
                NodeKind::Variable { .. } => true,
                NodeKind::Definition { .. } => false,
            }
        };
        if !able {
            return false;
        }
        let ghost before = self.locks@;
        let ghost start = *self;
        self.locks.in_step();
        proof {
            self.locks.lemma_view_at(at as int);
        }
        let lock = self.locks.value_at_mut(at);
        let mut prior: Option<StampedValue> = None;
        core::mem::swap(&mut lock.value, &mut prior);
        let basis = match prior {
            Some(stamped) => stamped.basis,
            None => BasisStamp::empty(),
        };
        lock.value = Some(StampedValue { value: value.clone(), basis });
        lock.wrote = true;
        let ghost unsent = self.unsent@;
        self.unsent.push((address.address, value.clone()));
        proof {
            assert(self.locks@.dom() =~= before.dom());
            let node = *address;
            let order = start.lock_order();
            assert(order[at as int] == node.address);
            assert forall|earlier: Self, log: Seq<(VersionedAddress, ValueView)>| #[trigger]
                start.writes_since(&earlier, log) implies self.writes_since(
                &earlier,
                log.push((node, value@)),
            ) by {
                let more = log.push((node, value@));
                assert forall|i: int| 0 <= i < earlier.lock_states().len() implies lock_since(
                    earlier.lock_order()[i],
                    earlier.lock_states()[i],
                    #[trigger] self.lock_states()[i],
                    more,
                ) by {
                    let target = VersionedAddress {
                        address: earlier.lock_order()[i],
                        version: earlier.lock_states()[i].version,
                    };
                    assert(lock_since(
                        earlier.lock_order()[i],
                        earlier.lock_states()[i],
                        start.lock_states()[i],
                        log,
                    ));
                    lemma_written_push(log, node, value@, target);
                    if i == at {
                        assert(target == node);
                    } else {
                        assert(order[i] != order[at as int]);
                        assert(target != node);
                        assert(self.lock_states()[i] == start.lock_states()[i]);
                    }
                }
                assert(unsent_since(earlier.unsent(), self.unsent(), more)) by {
                    assert forall|k: int| 0 <= k < more.len() implies (
                    #[trigger] self.unsent()[earlier.unsent().len() + k]).0 == more[k].0.address
                        && self.unsent()[earlier.unsent().len() + k].1@ == more[k].1 by {
                        if k < log.len() {
                            assert(self.unsent()[earlier.unsent().len() + k]
                                == start.unsent()[earlier.unsent().len() + k]);
                        }
                    }
                    assert forall|k: int| 0 <= k < earlier.unsent().len() implies (
                    #[trigger] self.unsent()[k]) == earlier.unsent()[k] by {
                        assert(self.unsent()[k] == start.unsent()[k]);
                    }
                }
            }
        }
        true
    }
}

/// Whether `envelope` carries a write of `value` by `txid` to the node at
/// `target`.
pub open spec fn is_write(
    envelope: Envelope,
    me: Address,
    target: Address,
    txid: TxId,
    value: ValueView,
) -> bool {
    &&& envelope.sender == me
    &&& envelope.target == target
    &&& envelope.message matches Message::Write { txid: writer, value: carried }
    &&& writer == txid
    &&& carried@ == value
}

/// The variables that the node under `lock` derives from: none for a
/// variable, which can be read at once.
pub open spec fn roots_of(lock: HeldLock) -> Seq<Address> {
    match lock.node_kind {
        NodeKind::Variable { .. } => Seq::empty(),
        NodeKind::Definition { ancestors } => ancestors.members(),
    }
}

/// Whether the transaction holds a lock on every one of `roots`.
pub open spec fn all_locked(roots: Seq<Address>, locks: Map<Address, HeldLock>) -> bool {
    forall|k: int| 0 <= k < roots.len() ==> locks.contains_key(#[trigger] roots[k])
}

/// The iterations at which the variables among `roots` are locked.
pub open spec fn roots_stamp(roots: Seq<Address>, locks: Map<Address, HeldLock>) -> Stamp
    decreases roots.len(),
{
    if roots.len() == 0 {
        Map::empty()
    } else {
        let earlier = roots_stamp(roots.drop_last(), locks);
        let root = roots.last();
        if locks.contains_key(root) && locks[root].node_kind is Variable {
            stamp_add(earlier, root, locks[root].node_kind->iteration.0 as nat)
        } else {
            earlier
        }
    }
}

/// The kind of lock that is asked for on a node for which a shared lock
/// would do: the exclusive lock where the transaction may write the node.
pub open spec fn kind_for(may_write: Set<Address>, address: Address) -> LockKind {
    if may_write.contains(address) {
        LockKind::Exclusive
    } else {
        LockKind::Shared
    }
}

/// The locks that the transaction waits for once it has asked for a lock on
/// each of `roots` that it neither holds nor waits for.
pub open spec fn asked_roots(
    roots: Seq<Address>,
    locks: Map<Address, HeldLock>,
    pending: Map<Address, PendingLock>,
    may_write: Set<Address>,
) -> Map<Address, PendingLock>
    decreases roots.len(),
{
    if roots.len() == 0 {
        pending
    } else {
        let earlier = asked_roots(roots.drop_last(), locks, pending, may_write);
        let root = roots.last();
        if locks.contains_key(root) || earlier.contains_key(root) {
            earlier
        } else {
            earlier.insert(root, PendingLock { kind: kind_for(may_write, root), expected: None })
        }
    }
}

/// The requests that the transaction `txid` of the manager at `me` sends
/// when it asks for a lock on each of `roots` that it neither holds nor waits
/// for.
pub open spec fn root_requests(
    roots: Seq<Address>,
    locks: Map<Address, HeldLock>,
    pending: Map<Address, PendingLock>,
    may_write: Set<Address>,
    txid: TxId,
    me: Address,
) -> Seq<Envelope>
    decreases roots.len(),
{
    if roots.len() == 0 {
        Seq::empty()
    } else {
        let earlier = root_requests(roots.drop_last(), locks, pending, may_write, txid, me);
        let root = roots.last();
        if locks.contains_key(root) || asked_roots(
            roots.drop_last(),
            locks,
            pending,
            may_write,
        ).contains_key(root) {
            earlier
        } else {
            earlier.push(
                Envelope {
                    sender: me,
                    target: root,
                    message: Message::Lock { txid, kind: kind_for(may_write, root) },
                },
            )
        }
    }
}

/// Whether `envelope` asks the node at `target` for its value, for `txid`,
/// as of the stamp `basis` or later.
pub open spec fn is_read(
    envelope: Envelope,
    me: Address,
    target: Address,
    txid: TxId,
    basis: Stamp,
) -> bool {
    &&& envelope.sender == me
    &&& envelope.target == target
    &&& envelope.message matches Message::Read { txid: reader, basis: wanted }
    &&& reader == txid
    &&& wanted@ == basis
}

/// Whether the transaction `before` of the manager at `me` becomes `after`
/// and sends `sent` when it does what it takes to get the value of `node`.
pub open spec fn wanted(
    before: TransactionState,
    after: TransactionState,
    node: VersionedAddress,
    me: Address,
    sent: Seq<Envelope>,
) -> bool {
    let locks = before.locks();
    if !locks.contains_key(node.address) {
        // The node is asked for a lock, unless it was asked before.
        &&& after.lock_states() == before.lock_states()
        &&& if before.pending().contains_key(node.address) {
            after.pending() == before.pending() && sent.len() == 0
        } else {
            &&& after.pending() == before.pending().insert(
                node.address,
                PendingLock {
                    kind: kind_for(before.may_write(), node.address),
                    expected: Some(node.version),
                },
            )
            &&& sent == seq![
                Envelope {
                    sender: me,
                    target: node.address,
                    message: Message::Lock {
                        txid: before.id(),
                        kind: kind_for(before.may_write(), node.address),
                    },
                },
            ]
        }
    } else {
        let lock = locks[node.address];
        let roots = roots_of(lock);
        if lock.value is Some || lock.reading {
            // The value is there, or on its way.
            &&& after.lock_states() == before.lock_states()
            &&& after.pending() == before.pending()
            &&& sent.len() == 0
        } else if all_locked(roots, locks) {
            // The node is asked for its value.
            &&& after.pending() == before.pending()
            &&& after.lock_states() == before.lock_states().update(
                before.lock_order().index_of(node.address),
                HeldLock {
                    kind: lock.kind,
                    version: lock.version,
                    node_kind: lock.node_kind,
                    value: lock.value,
                    read: lock.read,
                    reading: true,
                    wrote: lock.wrote,
                },
            )
            &&& sent.len() == 1
            &&& is_read(sent[0], me, node.address, before.id(), roots_stamp(roots, locks))
        } else {
            // The roots that are not locked yet are asked for locks.
            &&& after.lock_states() == before.lock_states()
            &&& after.pending() == asked_roots(roots, locks, before.pending(), before.may_write())
            &&& sent == root_requests(
                roots,
                locks,
                before.pending(),
                before.may_write(),
                before.id(),
                me,
            )
        }
    }
}

impl TransactionState {
    /// Sends the writes that wait to be sent, in the order in which they were
    /// made.
    pub fn flush_writes<A>(&mut self, ctx: &mut Context<A>)
        ensures
            final(ctx).extends(old(ctx)),
            final(ctx).spawned() == old(ctx).spawned(),
            final(ctx).retired() == old(ctx).retired(),
            final(self).id() == old(self).id(),
            final(self).staged_nodes() == old(self).staged_nodes(),
            final(self).may_write() == old(self).may_write(),
            final(self).pending() == old(self).pending(),
            final(self).locks() == old(self).locks(),
            final(self).lock_order() == old(self).lock_order(),
            final(self).lock_states() == old(self).lock_states(),
            final(self).unsent() == Seq::<(Address, Value)>::empty(),
            final(ctx).sent().len() == old(ctx).sent().len() + old(self).unsent().len(),
            forall|i: int|
                old(ctx).sent().len() <= i < final(ctx).sent().len() ==> (#[trigger] final(ctx).sent()[i]).sender
                    == old(ctx).spec_me(),
            forall|i: int|
                0 <= i < old(self).unsent().len() ==> is_write(
                    #[trigger] final(ctx).sent()[old(ctx).sent().len() + i],
                    old(ctx).spec_me(),
                    old(self).unsent()[i].0,
                    old(self).id(),
                    old(self).unsent()[i].1@,
                ),
    {
        let me = ctx.me();
        let ghost sent0 = ctx.sent();
        let mut unsent: Vec<(Address, Value)> = Vec::new();
        core::mem::swap(&mut self.unsent, &mut unsent);
        let n = unsent.len();
        let mut i: usize = 0;
        while i < n
            invariant
                i <= n,
                n == unsent@.len(),
                unsent@ == old(self).unsent@,
                self.id == old(self).id,
                ctx.spec_me() == me,
                ctx.extends(old(ctx)),
                ctx.spawned() == old(ctx).spawned(),
                ctx.retired() == old(ctx).retired(),
                sent0 == old(ctx).sent(),
                ctx.sent().len() == sent0.len() + i,
                forall|k: int|
                    sent0.len() <= k < ctx.sent().len() ==> (#[trigger] ctx.sent()[k]).sender == me,
                forall|k: int|
                    0 <= k < i ==> is_write(
                        #[trigger] ctx.sent()[sent0.len() + k],
                        me,
                        unsent@[k].0,
                        self.id,
                        unsent@[k].1@,
                    ),
            decreases n - i,
        {
            let target = unsent[i].0;
            let ghost before = ctx.sent();
            ctx.send(target, Message::Write { txid: self.id, value: unsent[i].1.clone() });
            proof {
                assert forall|k: int| sent0.len() <= k < ctx.sent().len() implies (
                #[trigger] ctx.sent()[k]).sender == me by {
                    if k < before.len() {
                        assert(ctx.sent()[k] == before[k]);
                    }
                }
                assert forall|k: int| 0 <= k < i + 1 implies is_write(
                    #[trigger] ctx.sent()[sent0.len() + k],
                    me,
                    unsent@[k].0,
                    self.id,
                    unsent@[k].1@,
                ) by {
                    if k < i {
                        assert(ctx.sent()[sent0.len() + k] == before[sent0.len() + k]);
                    }
                }
            }
            i += 1;
        }
    }

    /// Does what it takes to get the value of `node`, which the transaction
    /// is waiting to read: see [`wanted`]. A node that is not locked is asked
    /// for a shared lock. A node that is locked, and has neither been read nor
    /// asked, is asked for its value: a variable at once, and a definition
    /// once the variables that it derives from are all locked, with the
    /// iterations at which they are locked as the least that the value must
    /// reflect. Until then those variables are asked for shared locks.
    pub fn want_read<A>(&mut self, node: VersionedAddress, ctx: &mut Context<A>)
        ensures
            final(ctx).extends(old(ctx)),
            final(ctx).spawned() == old(ctx).spawned(),
            final(ctx).retired() == old(ctx).retired(),
            final(self).id() == old(self).id(),
            final(self).staged_nodes() == old(self).staged_nodes(),
            final(self).may_write() == old(self).may_write(),
            final(self).unsent() == old(self).unsent(),
            final(self).lock_order() == old(self).lock_order(),
            final(self).locks().dom() == old(self).locks().dom(),
            forall|a: VersionedAddress| #[trigger] seen(final(self).locks(), a) == seen(old(self).locks(), a),
            forall|a: VersionedAddress|
                #[trigger] can_write(final(self).locks(), a) == can_write(old(self).locks(), a),
            forall|a: Address|
                #![trigger final(self).pending().contains_key(a)]
                old(self).pending().contains_key(a) ==> final(self).pending().contains_key(a),
            sent_by(final(ctx).sent(), old(ctx).sent().len() as int, old(ctx).spec_me()),
            wanted(
                *old(self),
                *final(self),
                node,
                old(ctx).spec_me(),
                final(ctx).sent().skip(old(ctx).sent().len() as int),
            ),
    {
        let me = ctx.me();
        let ghost sent0 = ctx.sent();
        let ghost locks0 = self.locks@;
        let ghost pending0 = self.pending_locks@;
        proof {
            assert(sent0.skip(sent0.len() as int) =~= Seq::<Envelope>::empty());
        }
        let at = match self.locks.find(node.address) {
            Some(at) => at,
            None => {
                let _ = self.request(node, LockKind::Shared, ctx);
                proof {
                    let sent = ctx.sent().skip(sent0.len() as int);
                    if self.pending() != pending0 {
                        assert(sent =~= seq![ctx.sent()[sent0.len() as int]]);
                    } else {
                        assert(sent =~= Seq::<Envelope>::empty());
                    }
                    assert forall|k: int| sent0.len() <= k < ctx.sent().len() implies (
                    #[trigger] ctx.sent()[k]).sender == me by {}
                }
                return;
            },
        };
        self.locks.in_step();
        proof {
            self.locks.lemma_view_at(at as int);
        }
        let (asked, roots) = {
            let lock = self.locks.value_at(at);
            let asked = lock.value.is_some() || lock.reading;
            let roots = match &lock.node_kind {
                NodeKind::Variable { .. } => AddressSet::new(),
                NodeKind::Definition { ancestors } => ancestors.clone(),
            };
            (asked, roots)
        };
        if asked {
            return;
        }
        let ghost lock0 = locks0[node.address];
        let ghost wanted_roots = roots.members();
        proof {
            assert(wanted_roots == roots_of(lock0));
        }
        // The iterations at which the roots are locked, as far as they are.
        let mut basis = BasisStamp::empty();
        let mut ready = true;
        let n = roots.len();
        let mut i: usize = 0;
        while i < n
            invariant
                i <= n,
                n == wanted_roots.len(),
                wanted_roots == roots.members(),
                self.locks@ == locks0,
                basis@ == roots_stamp(wanted_roots.take(i as int), locks0),
                ready == forall|k: int| 0 <= k < i ==> locks0.contains_key(#[trigger] wanted_roots[k]),
            decreases n - i,
        {
            let root = roots.member_at(i);
            proof {
                assert(wanted_roots.take(i + 1).drop_last() =~= wanted_roots.take(i as int));
                assert(wanted_roots.take(i + 1).last() == root);
            }
            match self.locks.get(root) {
                Some(lock) => {
                    match &lock.node_kind {
                        NodeKind::Variable { iteration } => {
                            basis.add(root, *iteration);
                        },
                        NodeKind::Definition { .. } => {},
                    }
                },
                None => {
                    ready = false;
                },
            }
            i += 1;
        }
        proof {
            assert(wanted_roots.take(n as int) =~= wanted_roots);
        }
        if ready {
            ctx.send(node.address, Message::Read { txid: self.id, basis });
            let lock = self.locks.value_at_mut(at);
            lock.reading = true;
            proof {
                let sent = ctx.sent().skip(sent0.len() as int);
                assert(sent =~= seq![ctx.sent()[sent0.len() as int]]);
                assert(self.locks@.dom() =~= locks0.dom());
                assert forall|k: int| sent0.len() <= k < ctx.sent().len() implies (
                #[trigger] ctx.sent()[k]).sender == me by {}
                assert(all_locked(wanted_roots, locks0));
            }
        } else {
            let mut j: usize = 0;
            while j < n
                invariant
                    j <= n,
                    n == wanted_roots.len(),
                    wanted_roots == roots.members(),
                    self.locks() == old(self).locks(),
                    self.lock_order() == old(self).lock_order(),
                    self.lock_states() == old(self).lock_states(),
                    self.id == old(self).id,
                    self.may_write() == old(self).may_write(),
                    self.unsent() == old(self).unsent(),
                    self.staged_nodes() == old(self).staged_nodes(),
                    locks0 == old(self).locks(),
                    pending0 == old(self).pending(),
                    sent0 == old(ctx).sent(),
                    ctx.spec_me() == me,
                    ctx.extends(old(ctx)),
                    ctx.spawned() == old(ctx).spawned(),
                    ctx.retired() == old(ctx).retired(),
                    self.pending() == asked_roots(
                        wanted_roots.take(j as int),
                        locks0,
                        pending0,
                        self.may_write(),
                    ),
                    ctx.sent() == sent0 + root_requests(
                        wanted_roots.take(j as int),
                        locks0,
                        pending0,
                        self.may_write(),
                        self.id,
                        me,
                    ),
                    forall|a: Address|
                        #![trigger self.pending().contains_key(a)]
                        pending0.contains_key(a) ==> self.pending().contains_key(a),
                    sent_by(ctx.sent(), sent0.len() as int, me),
                decreases n - j,
            {
                let root = roots.member_at(j);
                let ghost before = ctx.sent();
                proof {
                    assert(wanted_roots.take(j + 1).drop_last() =~= wanted_roots.take(j as int));
                    assert(wanted_roots.take(j + 1).last() == root);
                }
                let _ = self.request_any_version(root, ctx);
                proof {
                    assert(ctx.sent() =~= sent0 + root_requests(
                        wanted_roots.take(j + 1),
                        locks0,
                        pending0,
                        self.may_write(),
                        self.id,
                        me,
                    ));
                    assert forall|k: int| sent0.len() <= k < ctx.sent().len() implies (
                    #[trigger] ctx.sent()[k]).sender == me by {
                        if k < before.len() {
                            assert(ctx.sent()[k] == before[k]);
                        }
                    }
                }
                j += 1;
            }
            proof {
                assert(wanted_roots.take(n as int) =~= wanted_roots);
                let sent = ctx.sent().skip(sent0.len() as int);
                assert(sent =~= root_requests(
                    wanted_roots,
                    locks0,
                    pending0,
                    self.may_write(),
                    self.id,
                    me,
                ));
                let k = choose|k: int| 0 <= k < n && !locks0.contains_key(#[trigger] wanted_roots[k]);
                assert(!all_locked(wanted_roots, locks0));
            }
        }
    }

    /// Asks for a shared lock on the node at `address`, whatever its version,
    /// unless the transaction holds a lock on it or has asked for one.
    /// Returns whether a request was sent.
    pub fn request_any_version<A>(&mut self, address: Address, ctx: &mut Context<A>) -> (sent: bool)
        ensures
            final(ctx).extends(old(ctx)),
            final(ctx).spawned() == old(ctx).spawned(),
            final(ctx).retired() == old(ctx).retired(),
            final(self).id() == old(self).id(),
            final(self).staged_nodes() == old(self).staged_nodes(),
            final(self).may_write() == old(self).may_write(),
            final(self).locks() == old(self).locks(),
            final(self).lock_order() == old(self).lock_order(),
            final(self).lock_states() == old(self).lock_states(),
            final(self).unsent() == old(self).unsent(),
            sent == !(old(self).locks().contains_key(address) || old(self).pending().contains_key(
                address,
            )),
            if sent {
                let asked = if old(self).may_write().contains(address) {
                    LockKind::Exclusive
                } else {
                    LockKind::Shared
                };
                &&& final(self).pending() == old(self).pending().insert(
                    address,
                    PendingLock { kind: asked, expected: None },
                )
                &&& final(ctx).sent() == old(ctx).sent().push(
                    Envelope {
                        sender: old(ctx).spec_me(),
                        target: address,
                        message: Message::Lock { txid: old(self).id(), kind: asked },
                    },
                )
            } else {
                &&& final(self).pending() == old(self).pending()
                &&& final(ctx).sent() == old(ctx).sent()
            },
    {
        if self.locks.contains_key(address) || self.pending_locks.contains_key(address) {
            return false;
        }
        let asked = if self.may_write.contains(address) {
            LockKind::Exclusive
        } else {
            LockKind::Shared
        };
        let _ = self.pending_locks.insert(address, PendingLock { kind: asked, expected: None });
        ctx.send(address, Message::Lock { txid: self.id, kind: asked });
        true
    }
}

/// The addresses of `nodes`.
pub open spec fn addresses_of(nodes: Seq<VersionedAddress>) -> Set<Address> {
    Set::new(|a: Address| exists|k: int| 0 <= k < nodes.len() && (#[trigger] nodes[k]).address == a)
}

/// The kind of lock that is asked for on a node for which a lock of `kind`
/// would do: the exclusive lock where the transaction may write the node.
pub open spec fn kind_or_more(may_write: Set<Address>, address: Address, kind: LockKind) -> LockKind {
    if may_write.contains(address) {
        LockKind::Exclusive
    } else {
        kind
    }
}

/// The locks that the transaction waits for once it has asked for a lock of
/// `kind` on each of `nodes` that it neither holds a lock on nor waits for.
pub open spec fn asked_nodes(
    nodes: Seq<VersionedAddress>,
    kind: LockKind,
    locks: Map<Address, HeldLock>,
    pending: Map<Address, PendingLock>,
    may_write: Set<Address>,
) -> Map<Address, PendingLock>
    decreases nodes.len(),
{
    if nodes.len() == 0 {
        pending
    } else {
        let earlier = asked_nodes(nodes.drop_last(), kind, locks, pending, may_write);
        let node = nodes.last();
        if locks.contains_key(node.address) || earlier.contains_key(node.address) {
            earlier
        } else {
            earlier.insert(
                node.address,
                PendingLock {
                    kind: kind_or_more(may_write, node.address, kind),
                    expected: Some(node.version),
                },
            )
        }
    }
}

/// The requests that the transaction `txid` of the manager at `me` sends
/// when it asks for a lock of `kind` on each of `nodes` that it neither holds
/// a lock on nor waits for.
pub open spec fn node_requests(
    nodes: Seq<VersionedAddress>,
    kind: LockKind,
    locks: Map<Address, HeldLock>,
    pending: Map<Address, PendingLock>,
    may_write: Set<Address>,
    txid: TxId,
    me: Address,
) -> Seq<Envelope>
    decreases nodes.len(),
{
    if nodes.len() == 0 {
        Seq::empty()
    } else {
        let earlier = node_requests(nodes.drop_last(), kind, locks, pending, may_write, txid, me);
        let node = nodes.last();
        if locks.contains_key(node.address) || asked_nodes(
            nodes.drop_last(),
            kind,
            locks,
            pending,
            may_write,
        ).contains_key(node.address) {
            earlier
        } else {
            earlier.push(
                Envelope {
                    sender: me,
                    target: node.address,
                    message: Message::Lock {
                        txid,
                        kind: kind_or_more(may_write, node.address, kind),
                    },
                },
            )
        }
    }
}

/// Whether the transaction `before` of the manager at `me` becomes `after`
/// and sends `sent` when it does what it takes to get the value of each node
/// of `nodes`, in order: see [`wanted`].
pub open spec fn wanted_each(
    before: TransactionState,
    after: TransactionState,
    nodes: Seq<VersionedAddress>,
    me: Address,
    sent: Seq<Envelope>,
) -> bool
    decreases nodes.len(),
{
    if nodes.len() == 0 {
        after == before && sent.len() == 0
    } else {
        exists|mid: TransactionState, cut: int|
            {
                &&& 0 <= cut <= sent.len()
                &&& wanted_each(before, mid, nodes.drop_last(), me, sent.take(cut))
                &&& #[trigger] wanted(mid, after, nodes.last(), me, sent.skip(cut))
                &&& after.keeps(mid)
            }
    }
}

impl TransactionState {
    /// Whether this is the transaction `before` with nothing changed but
    /// what it waits for and what it has asked its locks.
    pub open spec fn keeps(&self, before: TransactionState) -> bool {
        &&& self.id() == before.id()
        &&& self.may_write() == before.may_write()
        &&& self.staged_nodes() == before.staged_nodes()
        &&& self.unsent() == before.unsent()
        &&& self.lock_order() == before.lock_order()
        &&& self.locks().dom() == before.locks().dom()
    }

    /// Whether this is the transaction `earlier` once the writes `log` were
    /// made and sent: each lock whose node was written is marked so and shows
    /// the value that was written last, and no write waits to be sent.
    pub open spec fn wrote(&self, earlier: TransactionState, log: Seq<(VersionedAddress, ValueView)>) -> bool {
        &&& self.id() == earlier.id()
        &&& self.may_write() == earlier.may_write()
        &&& self.pending() == earlier.pending()
        &&& self.staged_nodes() == earlier.staged_nodes()
        &&& self.lock_order() == earlier.lock_order()
        &&& self.locks().dom() == earlier.locks().dom()
        &&& self.lock_states().len() == earlier.lock_states().len()
        &&& self.unsent().len() == 0
        &&& forall|i: int|
            0 <= i < earlier.lock_states().len() ==> lock_since(
                earlier.lock_order()[i],
                earlier.lock_states()[i],
                #[trigger] self.lock_states()[i],
                log,
            )
    }

    /// Notes that the transaction may write each node of `nodes`.
    pub fn note_writes(&mut self, nodes: &Vec<VersionedAddress>)
        ensures
            final(self).may_write() == old(self).may_write().union(addresses_of(nodes@)),
            final(self).id() == old(self).id(),
            final(self).staged_nodes() == old(self).staged_nodes(),
            final(self).pending() == old(self).pending(),
            final(self).locks() == old(self).locks(),
            final(self).lock_order() == old(self).lock_order(),
            final(self).lock_states() == old(self).lock_states(),
            final(self).unsent() == old(self).unsent(),
    {
        let mut i: usize = 0;
        while i < nodes.len()
            invariant
                i <= nodes@.len(),
                self.may_write() == old(self).may_write().union(addresses_of(nodes@.take(i as int))),
                self.id() == old(self).id(),
                self.staged_nodes() == old(self).staged_nodes(),
                self.pending() == old(self).pending(),
                self.locks() == old(self).locks(),
                self.lock_order() == old(self).lock_order(),
                self.lock_states() == old(self).lock_states(),
                self.unsent() == old(self).unsent(),
            decreases nodes@.len() - i,
        {
            self.note_write(nodes[i].address);
            proof {
                let fewer = nodes@.take(i as int);
                let more = nodes@.take(i + 1);
                assert forall|a: Address| addresses_of(more).contains(a) <==> addresses_of(
                    fewer,
                ).contains(a) || a == nodes@[i as int].address by {
                    if addresses_of(fewer).contains(a) {
                        let k = choose|k: int| 0 <= k < fewer.len() && (#[trigger] fewer[k]).address == a;
                        assert(more[k].address == a);
                    }
                    if a == nodes@[i as int].address {
                        assert(more[i as int].address == a);
                    }
                    if addresses_of(more).contains(a) {
                        let k = choose|k: int| 0 <= k < more.len() && (#[trigger] more[k]).address == a;
                        if k < i {
                            assert(fewer[k].address == a);
                        }
                    }
                }
                assert(self.may_write() =~= old(self).may_write().union(addresses_of(more)));
            }
            i += 1;
        }
        proof {
            assert(nodes@.take(i as int) =~= nodes@);
            assert(addresses_of(Seq::<VersionedAddress>::empty()) =~= Set::<Address>::empty());
        }
    }

    /// Asks for a lock of `kind` on each node of `nodes`, in order: see
    /// [`TransactionState::request`].
    pub fn request_each<A>(&mut self, nodes: &Vec<VersionedAddress>, kind: LockKind, ctx: &mut Context<A>)
        ensures
            final(ctx).extends(old(ctx)),
            final(ctx).spawned() == old(ctx).spawned(),
            final(ctx).retired() == old(ctx).retired(),
            final(self).id() == old(self).id(),
            final(self).staged_nodes() == old(self).staged_nodes(),
            final(self).may_write() == old(self).may_write(),
            final(self).locks() == old(self).locks(),
            final(self).lock_order() == old(self).lock_order(),
            final(self).lock_states() == old(self).lock_states(),
            final(self).unsent() == old(self).unsent(),
            sent_by(final(ctx).sent(), old(ctx).sent().len() as int, old(ctx).spec_me()),
            final(self).pending() == asked_nodes(
                nodes@,
                kind,
                old(self).locks(),
                old(self).pending(),
                old(self).may_write(),
            ),
            final(ctx).sent() == old(ctx).sent() + node_requests(
                nodes@,
                kind,
                old(self).locks(),
                old(self).pending(),
                old(self).may_write(),
                old(self).id(),
                old(ctx).spec_me(),
            ),
    {
        let ghost locks = self.locks();
        let ghost pending = self.pending();
        let ghost may_write = self.may_write();
        let ghost sent0 = ctx.sent();
        let ghost me = ctx.spec_me();
        let ghost id = self.id();
        proof {
            assert(sent0 + Seq::<Envelope>::empty() =~= sent0);
        }
        let mut i: usize = 0;
        while i < nodes.len()
            invariant
                i <= nodes@.len(),
                ctx.spec_me() == me,
                ctx.extends(old(ctx)),
                ctx.spawned() == old(ctx).spawned(),
                ctx.retired() == old(ctx).retired(),
                self.id() == id,
                self.staged_nodes() == old(self).staged_nodes(),
                self.may_write() == may_write,
                self.locks() == locks,
                self.lock_order() == old(self).lock_order(),
                self.lock_states() == old(self).lock_states(),
                self.unsent() == old(self).unsent(),
                self.pending() == asked_nodes(nodes@.take(i as int), kind, locks, pending, may_write),
                sent0 == old(ctx).sent(),
                sent_by(ctx.sent(), sent0.len() as int, me),
                ctx.sent() == sent0 + node_requests(
                    nodes@.take(i as int),
                    kind,
                    locks,
                    pending,
                    may_write,
                    id,
                    me,
                ),
            decreases nodes@.len() - i,
        {
            let ghost earlier = node_requests(
                nodes@.take(i as int),
                kind,
                locks,
                pending,
                may_write,
                id,
                me,
            );
            proof {
                assert(nodes@.take(i + 1).drop_last() =~= nodes@.take(i as int));
                assert(nodes@.take(i + 1).last() == nodes@[i as int]);
            }
            let ghost sent1 = ctx.sent();
            let asked = self.request(nodes[i], kind, ctx);
            proof {
                if asked {
                    assert(ctx.sent() =~= sent0 + earlier.push(ctx.sent().last()));
                }
                assert forall|k: int| sent0.len() <= k < ctx.sent().len() implies (
                #[trigger] ctx.sent()[k]).sender == me by {
                    if k < sent1.len() {
                        assert(ctx.sent()[k] == sent1[k]);
                    }
                }
            }
            i += 1;
        }
        proof {
            assert(nodes@.take(i as int) =~= nodes@);
        }
    }

    /// Does what it takes to get the value of each node of `nodes`, in
    /// order: see [`TransactionState::want_read`].
    pub fn want_reads<A>(&mut self, nodes: &Vec<VersionedAddress>, ctx: &mut Context<A>)
        ensures
            final(ctx).extends(old(ctx)),
            final(ctx).spawned() == old(ctx).spawned(),
            final(ctx).retired() == old(ctx).retired(),
            final(self).keeps(*old(self)),
            sent_by(final(ctx).sent(), old(ctx).sent().len() as int, old(ctx).spec_me()),
            wanted_each(
                *old(self),
                *final(self),
                nodes@,
                old(ctx).spec_me(),
                final(ctx).sent().skip(old(ctx).sent().len() as int),
            ),
    {
        let ghost sent0 = ctx.sent();
        let ghost me = ctx.spec_me();
        proof {
            assert(sent0.skip(sent0.len() as int).len() == 0);
            assert(nodes@.take(0).len() == 0);
        }
        let mut i: usize = 0;
        while i < nodes.len()
            invariant
                i <= nodes@.len(),
                ctx.spec_me() == me,
                ctx.extends(old(ctx)),
                ctx.spawned() == old(ctx).spawned(),
                ctx.retired() == old(ctx).retired(),
                sent0 == old(ctx).sent(),
                sent0.len() <= ctx.sent().len(),
                self.keeps(*old(self)),
                sent_by(ctx.sent(), sent0.len() as int, me),
                wanted_each(
                    *old(self),
                    *self,
                    nodes@.take(i as int),
                    me,
                    ctx.sent().skip(sent0.len() as int),
                ),
            decreases nodes@.len() - i,
        {
            let ghost mid = *self;
            let ghost before = ctx.sent();
            self.want_read(nodes[i], ctx);
            proof {
                let all = ctx.sent().skip(sent0.len() as int);
                let cut = before.len() - sent0.len();
                assert(nodes@.take(i + 1).drop_last() =~= nodes@.take(i as int));
                assert(nodes@.take(i + 1).last() == nodes@[i as int]);
                assert(all.take(cut) =~= before.skip(sent0.len() as int));
                assert(all.skip(cut) =~= ctx.sent().skip(before.len() as int));
                assert(wanted_each(*old(self), mid, nodes@.take(i + 1).drop_last(), me, all.take(cut)));
                assert(wanted(mid, *self, nodes@.take(i + 1).last(), me, all.skip(cut)));
                assert(self.keeps(mid));
                assert(0 <= cut <= all.len());
                assert(nodes@.take(i + 1).len() > 0);
                let more = nodes@.take(i + 1);
                let now = *self;
                let start = *old(self);
                assert(exists|m: TransactionState, c: int|
                    {
                        &&& 0 <= c <= all.len()
                        &&& #[trigger] wanted_each(start, m, more.drop_last(), me, all.take(c))
                        &&& wanted(m, now, more.last(), me, all.skip(c))
                        &&& now.keeps(m)
                    }) by {
                    assert(wanted_each(start, mid, more.drop_last(), me, all.take(cut)));
                }
                assert(wanted_each(start, now, more, me, all));
                lemma_sent_by_more(before, ctx.sent(), sent0.len() as int, me);
            }
            i += 1;
        }
        proof {
            assert(nodes@.take(i as int) =~= nodes@);
        }
    }
}

/// One transaction: what it is to do, and how far it has come.
#[derive(Debug, PartialEq, Eq)]
pub struct Transaction {
    kind: TransactionKind,
    state: TransactionState,
    traversed: bool,
}

/// The address that the actor gets which `ctx` spawns next, where one is
/// left.
pub open spec fn first_free<A>(ctx: Context<A>) -> Address {
    let free = ctx.first_spawn() + ctx.spawned().len();
    Address {
        index: if free <= usize::MAX {
            free as usize
        } else {
            0
        },
    }
}

/// Whether the messages of `sent` from the place `from` on carry the writes
/// `log` of `txid` to their nodes, in order.
pub open spec fn wrote_with(
    sent: Seq<Envelope>,
    from: int,
    me: Address,
    txid: TxId,
    log: Seq<(VersionedAddress, ValueView)>,
) -> bool {
    forall|k: int|
        0 <= k < log.len() ==> is_write(#[trigger] sent[from + k], me, log[k].0.address, txid, log[k].1)
}

/// Whether the messages of `sent` from the place `from` on release the locks
/// of `txid` on the nodes `held`, in order, all of them with the stamp
/// `basis`.
pub open spec fn released_with(
    sent: Seq<Envelope>,
    from: int,
    me: Address,
    held: Seq<Address>,
    txid: TxId,
    basis: Stamp,
) -> bool {
    forall|i: int|
        0 <= i < held.len() ==> is_release(#[trigger] sent[from + i], me, held[i], txid, basis)
}

/// Whether every message of `sent` from the place `from` on was sent by `me`.
pub open spec fn sent_by(sent: Seq<Envelope>, from: int, me: Address) -> bool {
    forall|i: int| from <= i < sent.len() ==> (#[trigger] sent[i]).sender == me
}

/// Messages that `me` has sent, followed by messages that `me` has sent, are
/// messages that `me` has sent.
pub proof fn lemma_sent_by_more(
    before: Seq<Envelope>,
    after: Seq<Envelope>,
    from: int,
    me: Address,
)
    requires
        0 <= from <= before.len(),
        sent_by(before, from, me),
        before.is_prefix_of(after),
        sent_by(after, before.len() as int, me),
    ensures
        sent_by(after, from, me),
{
    assert forall|i: int| from <= i < after.len() implies (#[trigger] after[i]).sender == me by {
        if i < before.len() {
            assert(after[i] == before[i]);
        }
    }
}

impl Transaction {
    /// What is left to do.
    pub closed spec fn kind(&self) -> TransactionKind {
        self.kind
    }

    /// The locks of the transaction, and what it has read and written.
    pub closed spec fn state(&self) -> TransactionState {
        self.state
    }

    /// Whether the transaction has asked for the locks that it needs in any
    /// case.
    pub closed spec fn traversed(&self) -> bool {
        self.traversed
    }

    /// Between two passes no write waits to be sent.
    pub open spec fn wf(&self) -> bool {
        self.state().unsent().len() == 0
    }

    /// Whether this is a transaction that is to do `kind` under the
    /// identifier `id` and has not begun: it holds and waits for no lock, and
    /// has staged and written nothing.
    pub open spec fn fresh(&self, id: TxId, kind: TransactionKind) -> bool {
        &&& self.kind() == kind
        &&& !self.traversed()
        &&& self.state().id() == id
        &&& self.state().may_write() == Set::<Address>::empty()
        &&& self.state().pending() == Map::<Address, PendingLock>::empty()
        &&& self.state().locks() == Map::<Address, HeldLock>::empty()
        &&& self.state().lock_order() == Seq::<Address>::empty()
        &&& self.state().lock_states() == Seq::<HeldLock>::empty()
        &&& self.state().unsent() == Seq::<(Address, Value)>::empty()
        &&& self.state().staged_nodes() == Seq::<StagedNode>::empty()
    }

    /// A transaction that is to do `kind` under the identifier `id`.
    pub fn new(id: TxId, kind: TransactionKind) -> (transaction: Transaction)
        ensures
            transaction.fresh(id, kind),
            transaction.wf(),
            transaction.kind() == kind,
            !transaction.traversed(),
            transaction.state().id() == id,
            transaction.state().may_write() == Set::<Address>::empty(),
            transaction.state().pending() == Map::<Address, PendingLock>::empty(),
            transaction.state().locks() == Map::<Address, HeldLock>::empty(),
            transaction.state().lock_order() == Seq::<Address>::empty(),
            transaction.state().unsent() == Seq::<(Address, Value)>::empty(),
    {
        Transaction { kind, state: TransactionState::new(id), traversed: false }
    }

    /// The identifier of the transaction.
    pub fn id(&self) -> (id: TxId)
        ensures
            id == self.state().id(),
    {
        self.state.id
    }

    /// Whether this is the transaction `before` once it has taken note of
    /// the lock that the node at `address` has granted: see
    /// [`TransactionState::granted`].
    pub open spec fn took_lock(
        &self,
        before: Transaction,
        address: Address,
        version: Version,
        node_kind: NodeKind,
    ) -> bool {
        &&& self.kind() == before.kind()
        &&& self.traversed() == before.traversed()
        &&& self.state().granted(before.state(), address, version, node_kind)
    }

    /// Whether this is the transaction `before` once it has taken note of
    /// the value that the node at `address` has answered to a read: see
    /// [`TransactionState::answered`]. A value from a node that is not locked
    /// changes nothing.
    pub open spec fn took_value(&self, before: Transaction, address: Address, value: StampedValue) -> bool {
        if before.state().locks().contains_key(address) {
            &&& self.kind() == before.kind()
            &&& self.traversed() == before.traversed()
            &&& self.state().answered(before.state(), address, value)
        } else {
            *self == before
        }
    }

    /// Whether this is the transaction `before` once it no longer waits for
    /// a lock on the node at `address`.
    pub open spec fn gave_up_on(&self, before: Transaction, address: Address) -> bool {
        &&& self.kind() == before.kind()
        &&& self.traversed() == before.traversed()
        &&& self.state().id() == before.state().id()
        &&& self.state().staged_nodes() == before.state().staged_nodes()
        &&& self.state().may_write() == before.state().may_write()
        &&& self.state().locks() == before.state().locks()
        &&& self.state().lock_order() == before.state().lock_order()
        &&& self.state().lock_states() == before.state().lock_states()
        &&& self.state().unsent() == before.state().unsent()
        &&& self.state().pending() == before.state().pending().remove(address)
    }

    /// Takes note of a lock that the node at `address` has granted. The lock
    /// must have been asked for, and the node must have the version that was
    /// expected; else the transaction has failed, and nothing changes.
    pub fn lock_granted(&mut self, address: Address, version: Version, node_kind: NodeKind) -> (outcome:
        Result<(), TransactionError>)
        ensures
            outcome == match old(self).state().refuses(address, version) {
                Some(error) => Err::<(), TransactionError>(error),
                None => Ok::<(), TransactionError>(()),
            },
            outcome is Ok ==> final(self).took_lock(*old(self), address, version, node_kind),
            outcome is Err ==> *final(self) == *old(self),
            final(self).wf() == old(self).wf(),
            final(self).kind() == old(self).kind(),
            final(self).traversed() == old(self).traversed(),
            final(self).state().id() == old(self).state().id(),
            final(self).state().may_write() == old(self).state().may_write(),
            final(self).state().unsent() == old(self).state().unsent(),
            final(self).state().staged_nodes() == old(self).state().staged_nodes(),
            match outcome {
                Ok(_) => {
                    &&& old(self).state().pending().contains_key(address)
                    &&& old(self).state().pending()[address].expected matches Some(v) ==> v
                        == version
                    &&& final(self).state().pending() == old(self).state().pending().remove(address)
                    &&& final(self).state().locks() == old(self).state().locks().insert(
                        address,
                        HeldLock {
                            kind: old(self).state().pending()[address].kind,
                            version,
                            node_kind,
                            value: None,
                            read: false,
                            reading: false,
                            wrote: false,
                        },
                    )
                },
                Err(error) => {
                    &&& final(self).state().pending() == old(self).state().pending()
                    &&& final(self).state().locks() == old(self).state().locks()
                    &&& final(self).state().lock_order() == old(self).state().lock_order()
                    &&& final(self).state().lock_states() == old(self).state().lock_states()
                    &&& if !old(self).state().pending().contains_key(address) {
                        error == (TransactionError::UnexpectedGrant { address })
                    } else {
                        &&& old(self).state().pending()[address].expected matches Some(expected)
                        &&& expected != version
                        &&& error == (TransactionError::VersionMismatch {
                            address,
                            expected,
                            granted: version,
                        })
                    }
                },
            },
    {
        self.state.lock_granted(address, version, node_kind)
    }

    /// Takes note of the value that the node at `address` has answered to a
    /// read. The value is what the transaction sees at the node from now on,
    /// unless it has written the node. A value from a node that is not locked
    /// changes nothing.
    pub fn read_result(&mut self, address: Address, value: StampedValue) -> (outcome: Result<
        (),
        TransactionError,
    >)
        ensures
            outcome is Ok <==> old(self).state().locks().contains_key(address),
            final(self).took_value(*old(self), address, value),
            final(self).wf() == old(self).wf(),
            final(self).kind() == old(self).kind(),
            final(self).traversed() == old(self).traversed(),
            final(self).state().id() == old(self).state().id(),
            final(self).state().may_write() == old(self).state().may_write(),
            final(self).state().pending() == old(self).state().pending(),
            final(self).state().unsent() == old(self).state().unsent(),
            final(self).state().staged_nodes() == old(self).state().staged_nodes(),
            final(self).state().lock_order() == old(self).state().lock_order(),
            match outcome {
                Ok(_) => {
                    let at = old(self).state().lock_order().index_of(address);
                    let lock = old(self).state().lock_states()[at];
                    &&& old(self).state().locks().contains_key(address)
                    &&& final(self).state().lock_states() == old(self).state().lock_states().update(
                        at,
                        HeldLock {
                            kind: lock.kind,
                            version: lock.version,
                            node_kind: lock.node_kind,
                            value: if lock.wrote {
                                lock.value
                            } else {
                                Some(value)
                            },
                            read: true,
                            reading: false,
                            wrote: lock.wrote,
                        },
                    )
                },
                Err(error) => {
                    &&& !old(self).state().locks().contains_key(address)
                    &&& error == (TransactionError::UnexpectedValue { address })
                    &&& final(self).state().lock_states() == old(self).state().lock_states()
                    &&& final(self).state().locks() == old(self).state().locks()
                },
            },
    {
        self.state.read_result(address, value)
    }

    /// Takes note that the node at `address` has retired before it could
    /// grant a lock: see [`TransactionState::unreachable`].
    pub fn unreachable(&mut self, address: Address) -> (waited: bool)
        ensures
            final(self).gave_up_on(*old(self), address),
            final(self).wf() == old(self).wf(),
            final(self).kind() == old(self).kind(),
            final(self).traversed() == old(self).traversed(),
            final(self).state().id() == old(self).state().id(),
            final(self).state().staged_nodes() == old(self).state().staged_nodes(),
            final(self).state().may_write() == old(self).state().may_write(),
            final(self).state().locks() == old(self).state().locks(),
            final(self).state().lock_order() == old(self).state().lock_order(),
            final(self).state().lock_states() == old(self).state().lock_states(),
            final(self).state().unsent() == old(self).state().unsent(),
            waited == old(self).state().pending().contains_key(address),
            final(self).state().pending() == old(self).state().pending().remove(address),
    {
        self.state.unreachable(address)
    }

    /// Gives the transaction up: every lock that it holds is aborted. See
    /// [`TransactionState::abort_all`].
    pub fn abort<A>(&mut self, ctx: &mut Context<A>)
        ensures
            final(self).wf(),
            final(ctx).extends(old(ctx)),
            final(ctx).spawned() == old(ctx).spawned(),
            final(ctx).retired() == old(ctx).retired(),
            final(self).kind() == old(self).kind(),
            final(self).state().id() == old(self).state().id(),
            final(self).state().locks() == Map::<Address, HeldLock>::empty(),
            final(ctx).sent().len() == old(ctx).sent().len() + old(self).state().lock_order().len(),
            forall|i: int|
                0 <= i < old(self).state().lock_order().len() ==> #[trigger] final(ctx).sent()[old(ctx).sent().len() + i] == (Envelope {
                    sender: old(ctx).spec_me(),
                    target: old(self).state().lock_order()[i],
                    message: Message::Abort { txid: old(self).state().id() },
                }),
    {
        self.state.abort_all(ctx);
    }

    /// Gives the transaction up after it has failed: every lock that it holds
    /// is released with the empty stamp.
    pub fn fail<A>(&mut self, ctx: &mut Context<A>)
        ensures
            final(ctx).extends(old(ctx)),
            final(ctx).spawned() == old(ctx).spawned(),
            final(ctx).retired() == old(ctx).retired(),
            final(self).kind() == old(self).kind(),
            final(self).state().id() == old(self).state().id(),
            final(self).state().unsent() == old(self).state().unsent(),
            final(self).state().locks() == Map::<Address, HeldLock>::empty(),
            final(ctx).sent().len() == old(ctx).sent().len() + old(self).state().lock_order().len(),
            released_with(
                final(ctx).sent(),
                old(ctx).sent().len() as int,
                old(ctx).spec_me(),
                old(self).state().lock_order(),
                old(self).state().id(),
                Map::<Address, nat>::empty(),
            ),
    {
        let basis = BasisStamp::empty();
        self.state.release_all(&basis, ctx);
    }

    /// The nodes on which the transaction asks for the exclusive lock before
    /// anything else: those that it is sure to change.
    pub open spec fn claimed(&self) -> Seq<VersionedAddress> {
        match self.kind() {
            TransactionKind::Action(action) => action@.writes(),
            TransactionKind::Upgrade(upgrade) => upgrade@.targets(),
        }
    }

    /// The nodes on which the transaction asks for a shared lock before
    /// anything else: the existing nodes that an upgrade reads.
    pub open spec fn surveyed(&self) -> Seq<VersionedAddress> {
        match self.kind() {
            TransactionKind::Action(_) => Seq::empty(),
            TransactionKind::Upgrade(upgrade) => existing(upgrade@.reads(), false),
        }
    }

    /// The nodes whose values the transaction needs to go on: those that an
    /// action reads, and the existing nodes that an upgrade reads for the
    /// value of a variable.
    pub open spec fn awaited(&self) -> Seq<VersionedAddress> {
        match self.kind() {
            TransactionKind::Action(action) => action@.reads(),
            TransactionKind::Upgrade(upgrade) => existing(upgrade@.reads(), true),
        }
    }

    /// Whether nothing is left for the transaction to do but to commit.
    pub open spec fn done(&self) -> bool {
        match self.kind() {
            TransactionKind::Action(action) => action@ is Nil,
            TransactionKind::Upgrade(upgrade) => upgrade@ is Nil,
        }
    }

    /// Whether this is the transaction `before` of the manager at `me` once
    /// it has begun, and `sent` is what it sent for that. A transaction
    /// begins once. It notes that it may write the nodes that it is sure to
    /// change, and asks for the exclusive lock on each of them; an upgrade
    /// then asks for a shared lock on each existing node that it reads.
    pub open spec fn begun(&self, before: Transaction, me: Address, sent: Seq<Envelope>) -> bool {
        if before.traversed() {
            *self == before && sent.len() == 0
        } else {
            let state = before.state();
            let may_write = state.may_write().union(addresses_of(before.claimed()));
            let claimed = asked_nodes(
                before.claimed(),
                LockKind::Exclusive,
                state.locks(),
                state.pending(),
                may_write,
            );
            &&& self.traversed()
            &&& self.kind() == before.kind()
            &&& self.state().id() == state.id()
            &&& self.state().staged_nodes() == state.staged_nodes()
            &&& self.state().unsent() == state.unsent()
            &&& self.state().locks() == state.locks()
            &&& self.state().lock_order() == state.lock_order()
            &&& self.state().lock_states() == state.lock_states()
            &&& self.state().may_write() == may_write
            &&& self.state().pending() == asked_nodes(
                before.surveyed(),
                LockKind::Shared,
                state.locks(),
                claimed,
                may_write,
            )
            &&& sent == node_requests(
                before.claimed(),
                LockKind::Exclusive,
                state.locks(),
                state.pending(),
                may_write,
                state.id(),
                me,
            ) + node_requests(
                before.surveyed(),
                LockKind::Shared,
                state.locks(),
                claimed,
                may_write,
                state.id(),
                me,
            )
        }
    }

    /// Whether this is the transaction `before` of the manager at `me` after
    /// one pass of evaluation, and `sent` is what it sent for that. An
    /// action is evaluated as far as the locks that are held allow, and each
    /// write that it made is sent to its node: see [`ActionView::run`]. An
    /// upgrade is evaluated as far as what it can read allows, and sends
    /// nothing: see [`crate::expr::UpgradeView`].
    pub open spec fn moved(&self, before: Transaction, me: Address, sent: Seq<Envelope>) -> bool {
        let state = before.state();
        &&& self.traversed() == before.traversed()
        &&& match before.kind() {
            TransactionKind::Action(action) => {
                let known = |a: VersionedAddress| seen(state.locks(), a);
                let writable = |a: VersionedAddress| can_write(state.locks(), a);
                let log = action@.written(known, writable);
                &&& self.kind() matches TransactionKind::Action(rest)
                &&& rest@ == action@.run(known, writable).0
                &&& self.state().wrote(state, log)
                &&& sent.len() == log.len()
                &&& wrote_with(sent, 0, me, state.id(), log)
            },
            TransactionKind::Upgrade(upgrade) => {
                let ran = upgrade@.run(
                    |i: Ident| found(state.staged_nodes(), state.locks(), i),
                    UpgradeEvalContext::staged(&state),
                );
                &&& self.kind() matches TransactionKind::Upgrade(rest)
                &&& rest@ == ran.0
                &&& UpgradeEvalContext::staged(&self.state()) == ran.2
                &&& UpgradeEvalContext::grows(&state, &self.state())
                &&& sent.len() == 0
            },
        }
    }

    /// Whether this is the transaction `before` of the manager at `me` once
    /// it has given its locks back on commit, and `sent` is what it sent for
    /// that: every lock is released with the commit basis.
    pub open spec fn released(&self, before: Transaction, me: Address, sent: Seq<Envelope>) -> bool {
        let state = before.state();
        let held = state.lock_order();
        &&& self.traversed() == before.traversed()
        &&& self.kind() == before.kind()
        &&& self.state().id() == state.id()
        &&& self.state().staged_nodes() == state.staged_nodes()
        &&& self.state().may_write() == state.may_write()
        &&& self.state().pending() == state.pending()
        &&& self.state().unsent() == state.unsent()
        &&& self.state().locks() == Map::<Address, HeldLock>::empty()
        &&& self.state().lock_order() == Seq::<Address>::empty()
        &&& sent.len() == held.len()
        &&& released_with(sent, 0, me, held, state.id(), state.commit_basis())
    }

    /// Whether this is the transaction `before` of the manager at `me` once
    /// it has asked for what it needs to go on, and `sent` is what it sent
    /// for that: see [`wanted_each`].
    pub open spec fn inquired(&self, before: Transaction, me: Address, sent: Seq<Envelope>) -> bool {
        &&& self.traversed() == before.traversed()
        &&& self.kind() == before.kind()
        &&& self.state().keeps(before.state())
        &&& wanted_each(before.state(), self.state(), before.awaited(), me, sent)
    }

    /// Whether `after` and `directory` are what becomes of `before` and
    /// `known` when the upgrade `moved`, of which nothing is left to do and
    /// which waits for no lock, is committed and ends as `outcome`. On
    /// success the messages from the place `from` on, and the nodes that were
    /// spawned, are those of a blueprint for what the upgrade has staged: see
    /// [`committed`] and [`planned`]; the new nodes are registered, and the
    /// transaction holds no lock. On failure nothing has changed.
    pub open spec fn upgraded<A: Host>(
        &self,
        moved: Transaction,
        before: Context<A>,
        after: Context<A>,
        from: int,
        known: Directory,
        directory: Directory,
        outcome: Result<bool, TransactionError>,
    ) -> bool {
        let state = moved.state();
        let free = before.first_spawn() + before.spawned().len();
        match outcome {
            Ok(done) => {
                &&& done
                &&& self.traversed() == moved.traversed()
                &&& self.kind() == moved.kind()
                &&& self.state().id() == state.id()
                &&& self.state().staged_nodes() == state.staged_nodes()
                &&& self.state().pending() == state.pending()
                &&& self.state().unsent() == state.unsent()
                &&& self.state().locks() == Map::<Address, HeldLock>::empty()
                &&& directory.state().managers == known.state().managers
                &&& exists|blueprint: Blueprint|
                    {
                        &&& #[trigger] committed(
                            before,
                            after,
                            from,
                            blueprint,
                            state.id(),
                            state.lock_order(),
                            state.commit_basis(),
                        )
                        &&& planned(
                            blueprint,
                            state.staged_nodes(),
                            state.locks(),
                            known,
                            first_free(before),
                        )
                        &&& directory.state().nodes == all_registered(
                            known.state().nodes,
                            created_by(blueprint.plans@),
                            free,
                            created_by(blueprint.plans@).len(),
                        )
                        &&& registered_each(
                            known,
                            directory,
                            created_by(blueprint.plans@),
                            free,
                            created_by(blueprint.plans@).len(),
                            before.spec_me(),
                            after.sent().skip(
                                from + plan_messages(
                                    blueprint.plans@,
                                    state.id(),
                                    before.spec_me(),
                                ).len() + blueprint.subscriptions@.len() + state.lock_order().len(),
                            ),
                        )
                    }
            },
            Err(error) => {
                &&& *self == moved
                &&& after.sent().len() == from
                &&& after.spawned() == before.spawned()
                &&& directory == known
                &&& if free >= usize::MAX {
                    error is NoAddress
                } else {
                    exists|done: Seq<Plan>| #[trigger]
                        stops(
                            state.staged_nodes(),
                            done,
                            state.locks(),
                            known,
                            first_free(before),
                            error,
                        )
                }
            },
        }
    }

    /// Whether `after` and `directory` are what becomes of `before` and
    /// `known` when the transaction `moved` ends its pass with `outcome`,
    /// with the messages from the place `from` on. A transaction of which
    /// something is left to do asks for what it needs to go on: see
    /// [`Transaction::inquired`]. An action of which nothing is left
    /// commits: see [`Transaction::released`]. An upgrade of which nothing is
    /// left waits until it has all the locks that it has asked for, and then
    /// commits: see [`Transaction::upgraded`].
    pub open spec fn finished<A: Host>(
        &self,
        moved: Transaction,
        before: Context<A>,
        after: Context<A>,
        from: int,
        known: Directory,
        directory: Directory,
        outcome: Result<bool, TransactionError>,
    ) -> bool {
        let me = before.spec_me();
        let rest = after.sent().skip(from);
        let quiet = after.spawned() == before.spawned() && directory == known;
        if !moved.done() {
            &&& outcome == Ok::<bool, TransactionError>(false)
            &&& self.inquired(moved, me, rest)
            &&& quiet
        } else if moved.kind() is Action {
            &&& outcome == Ok::<bool, TransactionError>(true)
            &&& self.released(moved, me, rest)
            &&& quiet
        } else if moved.state().pending() != Map::<Address, PendingLock>::empty() {
            &&& outcome == Ok::<bool, TransactionError>(false)
            &&& *self == moved
            &&& rest.len() == 0
            &&& quiet
        } else {
            self.upgraded(moved, before, after, from, known, directory, outcome)
        }
    }

    /// Whether `after` and `directory` are what becomes of `before` and
    /// `known` when the transaction `start` goes through one pass that ends
    /// as `outcome`, and this is the transaction after the pass. The
    /// transaction begins, as `begun`, with the first `first` of the messages
    /// that the pass sends; it is evaluated, as `moved`, with the messages up
    /// to the place `second`; and it ends the pass with the others.
    pub open spec fn passed<A: Host>(
        &self,
        start: Transaction,
        begun: Transaction,
        moved: Transaction,
        first: int,
        second: int,
        before: Context<A>,
        after: Context<A>,
        known: Directory,
        directory: Directory,
        outcome: Result<bool, TransactionError>,
    ) -> bool {
        let me = before.spec_me();
        let sent = after.sent().skip(before.sent().len() as int);
        &&& 0 <= first <= second <= sent.len()
        &&& begun.begun(start, me, sent.subrange(0, first))
        &&& moved.moved(begun, me, sent.subrange(first, second))
        &&& self.finished(
            moved,
            before,
            after,
            before.sent().len() + second,
            known,
            directory,
            outcome,
        )
    }

    /// Whether `after` and `directory` are what becomes of `before` and
    /// `known` when the transaction `start` goes through one pass that ends
    /// as `outcome`, and this is the transaction after the pass: see
    /// [`Transaction::passed`].
    pub open spec fn pass<A: Host>(
        &self,
        start: Transaction,
        before: Context<A>,
        after: Context<A>,
        known: Directory,
        directory: Directory,
        outcome: Result<bool, TransactionError>,
    ) -> bool {
        exists|begun: Transaction, moved: Transaction, first: int, second: int| #[trigger]
            self.passed(
                start,
                begun,
                moved,
                first,
                second,
                before,
                after,
                known,
                directory,
                outcome,
            )
    }

    /// Begins the transaction, unless it has begun: see
    /// [`Transaction::begun`].
    pub fn traverse<A>(&mut self, ctx: &mut Context<A>)
        ensures
            final(ctx).extends(old(ctx)),
            final(ctx).spawned() == old(ctx).spawned(),
            final(ctx).retired() == old(ctx).retired(),
            sent_by(final(ctx).sent(), old(ctx).sent().len() as int, old(ctx).spec_me()),
            final(self).traversed(),
            final(self).wf() == old(self).wf(),
            final(self).state().id() == old(self).state().id(),
            final(self).begun(
                *old(self),
                old(ctx).spec_me(),
                final(ctx).sent().skip(old(ctx).sent().len() as int),
            ),
    {
        let ghost sent0 = ctx.sent();
        if self.traversed {
            proof {
                assert(sent0.skip(sent0.len() as int).len() == 0);
                assert forall|k: int| sent0.len() <= k < ctx.sent().len() implies (
                #[trigger] ctx.sent()[k]).sender == ctx.spec_me() by {}
            }
            return ;
        }
        let ghost state0 = self.state;
        let ghost me = ctx.spec_me();
        let targets = match &self.kind {
            TransactionKind::Action(action) => {
                let mut visited: Vec<(&VersionedAddress, bool)> = Vec::new();
                let ghost none = visited@;
                action.visit_writes(&mut visited);
                let nodes = by_value(&visited);
                proof {
                    assert forall|k: int| 0 <= k < nodes@.len() implies nodes@[k]
                        == action@.writes()[k] by {
                        assert(*visited@[none.len() + k].0 == action@.writes()[k]);
                    }
                    assert(nodes@ =~= action@.writes());
                }
                nodes
            },
            TransactionKind::Upgrade(upgrade) => {
                let mut visited: Vec<&VersionedAddress> = Vec::new();
                let ghost none = visited@;
                upgrade.visit_upgrades(&mut visited);
                let mut nodes: Vec<VersionedAddress> = Vec::new();
                let mut i: usize = 0;
                while i < visited.len()
                    invariant
                        i <= visited@.len(),
                        nodes@.len() == i,
                        forall|k: int| 0 <= k < i ==> nodes@[k] == *visited@[k],
                    decreases visited@.len() - i,
                {
                    nodes.push(*visited[i]);
                    i += 1;
                }
                proof {
                    assert forall|k: int| 0 <= k < nodes@.len() implies nodes@[k]
                        == upgrade@.targets()[k] by {
                        assert(*visited@[none.len() + k] == upgrade@.targets()[k]);
                    }
                    assert(nodes@ =~= upgrade@.targets());
                }
                nodes
            },
        };
        let reads = match &self.kind {
            TransactionKind::Action(_) => Vec::new(),
            TransactionKind::Upgrade(upgrade) => existing_reads(upgrade, false),
        };
        self.state.note_writes(&targets);
        self.state.request_each(&targets, LockKind::Exclusive, ctx);
        let ghost sent1 = ctx.sent();
        self.state.request_each(&reads, LockKind::Shared, ctx);
        self.traversed = true;
        proof {
            let claims = node_requests(
                targets@,
                LockKind::Exclusive,
                state0.locks(),
                state0.pending(),
                self.state.may_write(),
                state0.id(),
                me,
            );
            let pending1 = asked_nodes(
                targets@,
                LockKind::Exclusive,
                state0.locks(),
                state0.pending(),
                self.state.may_write(),
            );
            let surveys = node_requests(
                reads@,
                LockKind::Shared,
                state0.locks(),
                pending1,
                self.state.may_write(),
                state0.id(),
                me,
            );
            assert(sent1.skip(sent0.len() as int) =~= claims);
            assert(ctx.sent().skip(sent1.len() as int) =~= surveys);
            assert(ctx.sent().skip(sent0.len() as int) =~= claims + surveys);
            assert(targets@ == old(self).claimed());
            assert(reads@ == old(self).surveyed());
            lemma_sent_by_more(sent1, ctx.sent(), sent0.len() as int, me);
        }
    }

    /// Takes the transaction through one pass of evaluation: see
    /// [`Transaction::moved`].
    pub fn advance<A>(&mut self, ctx: &mut Context<A>)
        requires
            old(self).wf(),
        ensures
            final(ctx).extends(old(ctx)),
            final(ctx).spawned() == old(ctx).spawned(),
            final(ctx).retired() == old(ctx).retired(),
            sent_by(final(ctx).sent(), old(ctx).sent().len() as int, old(ctx).spec_me()),
            final(self).wf(),
            final(self).state().id() == old(self).state().id(),
            final(self).moved(
                *old(self),
                old(ctx).spec_me(),
                final(ctx).sent().skip(old(ctx).sent().len() as int),
            ),
    {
        let ghost me = ctx.spec_me();
        let ghost sent0 = ctx.sent();
        let ghost state0 = self.state;
        let ghost locks0 = self.state.locks();
        let ghost staged0 = self.state.staged_nodes();
        let ghost nothing = Seq::<(VersionedAddress, ValueView)>::empty();
        let ghost staged_views = UpgradeEvalContext::staged(&self.state);
        self.state.locks.in_step();
        proof {
            assert(state0.writes_since(&state0, nothing));
            assert(UpgradeEvalContext::grows(&state0, &state0));
            assert((|a: VersionedAddress|
                ExprEvalContext::<VersionedAddress>::known(&self.state, a)) =~= (|
                a: VersionedAddress,
            | seen(locks0, a)));
            assert((|a: VersionedAddress| self.state.writable(a)) =~= (|a: VersionedAddress|
                can_write(locks0, a)));
            assert((|i: Ident| ExprEvalContext::<Ident>::known(&self.state, i)) =~= (|i: Ident|
                found(staged0, locks0, i)));
        }
        match &mut self.kind {
            TransactionKind::Action(action) => {
                action.eval(&mut self.state);
            },
            TransactionKind::Upgrade(upgrade) => {
                upgrade.eval(&mut self.state);
            },
        }
        let ghost log = match old(self).kind() {
            TransactionKind::Action(action) => action@.written(
                |a: VersionedAddress| seen(locks0, a),
                |a: VersionedAddress| can_write(locks0, a),
            ),
            TransactionKind::Upgrade(_) => nothing,
        };
        let ghost state1 = self.state;
        proof {
            if old(self).kind() is Action {
                assert(nothing + log =~= log);
                assert(state1.writes_since(&state0, log));
            }
        }
        self.state.flush_writes(ctx);
        proof {
            let sent = ctx.sent().skip(sent0.len() as int);
            if old(self).kind() is Upgrade {
                assert(state0.unsent() =~= self.state.unsent());
                assert(UpgradeEvalContext::staged(&self.state) =~= UpgradeEvalContext::staged(
                    &state1,
                ));
            }
            if old(self).kind() is Action {
                assert(self.state.wrote(state0, log)) by {
                    assert forall|i: int| 0 <= i < state0.lock_states().len() implies lock_since(
                        state0.lock_order()[i],
                        state0.lock_states()[i],
                        #[trigger] self.state.lock_states()[i],
                        log,
                    ) by {
                        assert(lock_since(
                            state0.lock_order()[i],
                            state0.lock_states()[i],
                            state1.lock_states()[i],
                            log,
                        ));
                    }
                }
                assert forall|k: int| 0 <= k < log.len() implies is_write(
                    #[trigger] sent[0 + k],
                    me,
                    log[k].0.address,
                    state0.id(),
                    log[k].1,
                ) by {
                    assert(sent[0 + k] == ctx.sent()[sent0.len() + k]);
                    assert(state1.unsent()[0 + k].0 == log[k].0.address);
                }
            }
        }
    }

    /// Commits the action once nothing is left of it to do: every lock is
    /// released with the commit basis. See [`Transaction::released`].
    pub fn commit_action<A>(&mut self, ctx: &mut Context<A>)
        ensures
            final(ctx).extends(old(ctx)),
            final(ctx).spawned() == old(ctx).spawned(),
            final(ctx).retired() == old(ctx).retired(),
            sent_by(final(ctx).sent(), old(ctx).sent().len() as int, old(ctx).spec_me()),
            final(self).released(
                *old(self),
                old(ctx).spec_me(),
                final(ctx).sent().skip(old(ctx).sent().len() as int),
            ),
    {
        let ghost me = ctx.spec_me();
        let ghost sent0 = ctx.sent();
        let ghost held = self.state.lock_order();
        let basis = self.state.compute_commit_basis();
        self.state.release_all(&basis, ctx);
        proof {
            let sent = ctx.sent().skip(sent0.len() as int);
            assert forall|i: int| 0 <= i < held.len() implies is_release(
                #[trigger] sent[0 + i],
                me,
                held[i],
                self.state.id(),
                basis@,
            ) by {
                assert(sent[0 + i] == ctx.sent()[sent0.len() + i]);
            }
            assert forall|i: int| sent0.len() <= i < ctx.sent().len() implies (
            #[trigger] ctx.sent()[i]).sender == me by {
                assert(is_release(
                    ctx.sent()[sent0.len() + (i - sent0.len())],
                    me,
                    held[i - sent0.len()],
                    self.state.id(),
                    basis@,
                ));
            }
        }
    }

    /// Asks for what the transaction needs to go on: see
    /// [`Transaction::inquired`].
    pub fn ask<A>(&mut self, ctx: &mut Context<A>)
        ensures
            final(ctx).extends(old(ctx)),
            final(ctx).spawned() == old(ctx).spawned(),
            final(ctx).retired() == old(ctx).retired(),
            sent_by(final(ctx).sent(), old(ctx).sent().len() as int, old(ctx).spec_me()),
            final(self).inquired(
                *old(self),
                old(ctx).spec_me(),
                final(ctx).sent().skip(old(ctx).sent().len() as int),
            ),
    {
        let reads = match &self.kind {
            TransactionKind::Action(action) => {
                let mut visited: Vec<(&VersionedAddress, bool)> = Vec::new();
                let ghost none = visited@;
                action.visit_reads(&mut visited);
                let nodes = by_value(&visited);
                proof {
                    assert forall|k: int| 0 <= k < nodes@.len() implies nodes@[k]
                        == action@.reads()[k] by {
                        assert(*visited@[none.len() + k].0 == action@.reads()[k]);
                    }
                    assert(nodes@ =~= action@.reads());
                }
                nodes
            },
            TransactionKind::Upgrade(upgrade) => existing_reads(upgrade, true),
        };
        self.state.want_reads(&reads, ctx);
    }

    /// Commits the upgrade once nothing is left of it to do. While the
    /// transaction waits for a lock, nothing is done. Else the steps of the
    /// commit are worked out: see [`crate::upgrade::plan`]. The nodes that
    /// exist are told what becomes of them, the new nodes are spawned, and
    /// the definitions are subscribed to what they read. Then every lock is
    /// released with the commit basis, and only then are the new nodes
    /// registered in `directory`, each under its name and at its first
    /// version. Where the steps cannot be worked out, nothing is done and the
    /// upgrade has failed.
    pub fn commit_upgrade<A: Host>(&mut self, directory: &mut Directory, ctx: &mut Context<A>) -> (outcome:
        Result<bool, TransactionError>)
        ensures
            final(ctx).extends(old(ctx)),
            final(ctx).retired() == old(ctx).retired(),
            sent_by(final(ctx).sent(), old(ctx).sent().len() as int, old(ctx).spec_me()),
            final(self).wf() == old(self).wf(),
            final(self).state().id() == old(self).state().id(),
            if old(self).state().pending() != Map::<Address, PendingLock>::empty() {
                &&& outcome == Ok::<bool, TransactionError>(false)
                &&& *final(self) == *old(self)
                &&& *final(ctx) == *old(ctx)
                &&& *final(directory) == *old(directory)
            } else {
                final(self).upgraded(
                    *old(self),
                    *old(ctx),
                    *final(ctx),
                    old(ctx).sent().len() as int,
                    *old(directory),
                    *final(directory),
                    outcome,
                )
            },
    {
        let me = ctx.me();
        let ghost sent0 = ctx.sent();
        let ghost held = self.state.lock_order();
        proof {
            assert forall|k: int| sent0.len() <= k < sent0.len() implies (#[trigger] sent0[k]).sender
                == me by {}
        }
        if !self.state.nothing_pending() {
            return Ok(false);
        }
        let base = match ctx.next_address() {
            Some(base) => base,
            None => {
                return Err(TransactionError::NoAddress);
            },
        };
        let blueprint = match crate::upgrade::plan(
            self.state.staged_ref(),
            self.state.locks_ref(),
            directory,
            base,
        ) {
            Ok(blueprint) => blueprint,
            Err(error) => {
                proof {
                    let free = old(ctx).first_spawn() + old(ctx).spawned().len();
                    assert(base == first_free(*old(ctx)));
                    let done = choose|done: Seq<Plan>| #[trigger]
                        stops(
                            self.state.staged_nodes(),
                            done,
                            self.state.locks(),
                            *directory,
                            base,
                            error,
                        );
                    assert(stops(
                        old(self).state().staged_nodes(),
                        done,
                        old(self).state().locks(),
                        *old(directory),
                        first_free(*old(ctx)),
                        error,
                    ));
                }
                return Err(error);
            },
        };
        let ghost drawn = blueprint;
        let ghost ctx2 = *ctx;
        let ghost free = old(ctx).first_spawn() + old(ctx).spawned().len();
        let ghost nodes0 = directory.state().nodes;
        let carried = crate::upgrade::carry_out(blueprint, self.state.id, ctx);
        proof {
            lemma_sent_by_more(sent0, ctx.sent(), sent0.len() as int, me);
        }
        let born = match carried {
            Ok(born) => born,
            Err(error) => {
                proof {
                    crate::upgrade::lemma_planned_has_room(
                        drawn,
                        self.state.staged_nodes(),
                        self.state.locks(),
                        *directory,
                        base,
                        drawn.plans@.len(),
                    );
                    assert(drawn.plans@.take(drawn.plans@.len() as int) =~= drawn.plans@);
                    assert(false);
                }
                return Err(error);
            },
        };
        let ghost made = created_by(drawn.plans@);
        let ghost ctx3 = *ctx;
        let ghost sent3 = ctx.sent();
        let basis = self.state.compute_commit_basis();
        self.state.release_all(&basis, ctx);
        let ghost sent4 = ctx.sent();
        proof {
            assert(sent4.skip(sent4.len() as int).len() == 0);
            assert forall|k: int| sent0.len() <= k < sent4.len() implies (#[trigger] sent4[k]).sender
                == me by {
                if k < sent0.len() {
                    assert(sent4[k] == sent0[k]);
                } else if k < sent3.len() {
                    assert(sent4[k] == sent3[k]);
                } else {
                    assert(is_release(
                        sent4[sent3.len() + (k - sent3.len())],
                        me,
                        held[k - sent3.len()],
                        self.state.id(),
                        basis@,
                    ));
                }
            }
        }
        let mut i: usize = 0;
        while i < born.len()
            invariant
                i <= born@.len(),
                ctx.spec_me() == me,
                ctx.extends(old(ctx)),
                ctx.retired() == old(ctx).retired(),
                ctx.spawned() == ctx3.spawned(),
                sent4.is_prefix_of(ctx.sent()),
                sent0 == old(ctx).sent(),
                sent_by(ctx.sent(), sent0.len() as int, me),
                born@.len() == made.len(),
                forall|k: int|
                    0 <= k < made.len() ==> (#[trigger] born@[k]).0 == made[k]->Create_name
                        && born@[k].1.index == free + k,
                directory.state().managers == old(directory).state().managers,
                directory.state().nodes == all_registered(nodes0, made, free, i as nat),
                registered_each(
                    *old(directory),
                    *directory,
                    made,
                    free,
                    i as nat,
                    me,
                    ctx.sent().skip(sent4.len() as int),
                ),
            decreases born@.len() - i,
        {
            let ghost before = ctx.sent();
            let ghost mid = *directory;
            let node = VersionedAddress { address: born[i].1, version: Version::zero() };
            if !directory.stale(&born[i].0, node) {
                directory.register(born[i].0.clone(), node, ctx);
            }
            proof {
                let told = ctx.sent().skip(before.len() as int);
                assert forall|k: int| sent0.len() <= k < ctx.sent().len() implies (
                #[trigger] ctx.sent()[k]).sender == me by {
                    if k < before.len() {
                        assert(ctx.sent()[k] == before[k]);
                    } else {
                        assert(told[k - before.len()] == ctx.sent()[k]);
                        assert(crate::directory::is_state_update(
                            told[k - before.len()],
                            me,
                            crate::directory::live_peers(
                                directory.manager_order(),
                                directory.state().managers,
                                me,
                            )[k - before.len()],
                            directory.state(),
                        ));
                    }
                }
            }
            proof {
                let all = ctx.sent().skip(sent4.len() as int);
                let cut = before.len() - sent4.len();
                assert(all.take(cut) =~= before.skip(sent4.len() as int));
                assert(all.skip(cut) =~= ctx.sent().skip(before.len() as int));
                assert(directory.took_in(
                    mid,
                    made[i as int]->Create_name@,
                    VersionedAddress {
                        address: Address { index: (free + (i + 1) - 1) as usize },
                        version: Version(0),
                    },
                    me,
                    all.skip(cut),
                ));
            }
            i += 1;
        }
        proof {
            assert(released_with(ctx.sent(), sent3.len() as int, me, held, self.state.id(), basis@))
                by {
                assert forall|k: int| 0 <= k < held.len() implies is_release(
                    #[trigger] ctx.sent()[sent3.len() + k],
                    me,
                    held[k],
                    self.state.id(),
                    basis@,
                ) by {
                    assert(ctx.sent()[sent3.len() + k] == sent4[sent3.len() + k]);
                }
            }
            let from = sent0.len() as int;
            let told = plan_messages(drawn.plans@, self.state.id(), me);
            let part = sent3.skip(from);
            assert(ctx.sent().subrange(from, from + told.len()) =~= told) by {
                assert forall|k: int| 0 <= k < told.len() implies ctx.sent()[from + k]
                    == told[k] by {
                    assert(part.take(told.len() as int)[k] == part[k]);
                    assert(part[k] == sent3[from + k]);
                    assert(sent4[from + k] == sent3[from + k]);
                }
            }
            assert forall|k: int| 0 <= k < drawn.subscriptions@.len() implies crate::upgrade::is_subscription(
                #[trigger] ctx.sent()[from + told.len() + k],
                me,
                drawn.subscriptions@[k].0,
                drawn.subscriptions@[k].1,
                self.state.id(),
            ) by {
                assert(part[told.len() + k] == sent3[from + told.len() + k]);
                assert(sent4[from + told.len() + k] == sent3[from + told.len() + k]);
            }
            assert(ctx.spawned().skip(old(ctx).spawned().len() as int) =~= ctx3.spawned().skip(
                ctx2.spawned().len() as int,
            ));
            assert(committed(
                *old(ctx),
                *ctx,
                from,
                drawn,
                self.state.id(),
                held,
                commit_basis_of(held, old(self).state().lock_states(), held.len()),
            ));
        }
        Ok(true)
    }

    /// Takes the transaction one pass further, and returns whether it is
    /// done.
    ///
    /// A pass has three steps. The transaction begins, unless it has begun:
    /// see [`Transaction::begun`]. It is evaluated under the locks that it
    /// holds: see [`Transaction::moved`]. Then it commits, where nothing is
    /// left to do, or asks for what it needs to go on: see
    /// [`Transaction::finished`].
    ///
    /// An upgrade that cannot be committed fails; it is for the caller to
    /// give it up.
    pub fn eval<A: Host>(&mut self, directory: &mut Directory, ctx: &mut Context<A>) -> (outcome:
        Result<bool, TransactionError>)
        requires
            old(self).wf(),
        ensures
            final(self).wf(),
            final(ctx).extends(old(ctx)),
            final(ctx).retired() == old(ctx).retired(),
            final(self).state().id() == old(self).state().id(),
            final(self).traversed(),
            sent_by(final(ctx).sent(), old(ctx).sent().len() as int, old(ctx).spec_me()),
            outcome matches Ok(true) ==> final(self).state().locks() == Map::<
                Address,
                HeldLock,
            >::empty(),
            final(self).pass(
                *old(self),
                *old(ctx),
                *final(ctx),
                *old(directory),
                *final(directory),
                outcome,
            ),
    {
        let me = ctx.me();
        let ghost sent0 = ctx.sent();
        self.traverse(ctx);
        let ghost begun = *self;
        let ghost sent1 = ctx.sent();
        self.advance(ctx);
        let ghost moved = *self;
        let ghost sent2 = ctx.sent();
        let ghost ctx2 = *ctx;
        proof {
            lemma_sent_by_more(sent1, sent2, sent0.len() as int, me);
        }
        let (done, is_upgrade) = match &self.kind {
            TransactionKind::Action(Action::Nil) => (true, false),
            TransactionKind::Upgrade(Upgrade::Nil) => (true, true),
            TransactionKind::Action(_) => (false, false),
            TransactionKind::Upgrade(_) => (false, true),
        };
        let outcome = if !done {
            self.ask(ctx);
            Ok(false)
        } else if !is_upgrade {
            self.commit_action(ctx);
            Ok(true)
        } else {
            self.commit_upgrade(directory, ctx)
        };
        proof {
            lemma_sent_by_more(sent2, ctx.sent(), sent0.len() as int, me);
            let sent = ctx.sent().skip(sent0.len() as int);
            let first = sent1.len() - sent0.len();
            let second = sent2.len() - sent0.len();
            assert(sent.subrange(0, first) =~= sent1.skip(sent0.len() as int));
            assert(sent.subrange(first, second) =~= sent2.skip(sent1.len() as int));
            assert(ctx.sent().skip(sent0.len() + second) =~= ctx.sent().skip(sent2.len() as int));
            if done && is_upgrade && moved.state().pending() == Map::<Address, PendingLock>::empty()
                && outcome is Ok {
                let drawn = choose|drawn: Blueprint|
                    {
                        &&& #[trigger] committed(
                            ctx2,
                            *ctx,
                            sent2.len() as int,
                            drawn,
                            moved.state().id(),
                            moved.state().lock_order(),
                            moved.state().commit_basis(),
                        )
                        &&& planned(
                            drawn,
                            moved.state().staged_nodes(),
                            moved.state().locks(),
                            *old(directory),
                            first_free(ctx2),
                        )
                        &&& directory.state().nodes == all_registered(
                            old(directory).state().nodes,
                            created_by(drawn.plans@),
                            ctx2.first_spawn() + ctx2.spawned().len(),
                            created_by(drawn.plans@).len(),
                        )
                        &&& registered_each(
                            *old(directory),
                            *directory,
                            created_by(drawn.plans@),
                            ctx2.first_spawn() + ctx2.spawned().len(),
                            created_by(drawn.plans@).len(),
                            me,
                            ctx.sent().skip(
                                sent2.len() as int + plan_messages(
                                    drawn.plans@,
                                    moved.state().id(),
                                    me,
                                ).len() + drawn.subscriptions@.len()
                                    + moved.state().lock_order().len(),
                            ),
                        )
                    };
                assert(committed(
                    *old(ctx),
                    *ctx,
                    sent0.len() + second,
                    drawn,
                    moved.state().id(),
                    moved.state().lock_order(),
                    moved.state().commit_basis(),
                ));
            }
            assert(first_free(ctx2) == first_free(*old(ctx)));
            if done && is_upgrade && moved.state().pending() == Map::<Address, PendingLock>::empty()
                && outcome is Err && ctx2.first_spawn() + ctx2.spawned().len() < usize::MAX {
                let steps = choose|steps: Seq<Plan>| #[trigger]
                    stops(
                        moved.state().staged_nodes(),
                        steps,
                        moved.state().locks(),
                        *old(directory),
                        first_free(ctx2),
                        outcome->Err_0,
                    );
                assert(stops(
                    moved.state().staged_nodes(),
                    steps,
                    moved.state().locks(),
                    *old(directory),
                    first_free(*old(ctx)),
                    outcome->Err_0,
                ));
            }
            assert(self.finished(
                moved,
                *old(ctx),
                *ctx,
                sent0.len() + second,
                *old(directory),
                *directory,
                outcome,
            ));
            assert(self.passed(
                *old(self),
                begun,
                moved,
                first,
                second,
                *old(ctx),
                *ctx,
                *old(directory),
                *directory,
                outcome,
            ));
        }
        outcome
    }
}

/// Commit is atomic: every node on which an action holds a lock is sent the
/// release of that lock, and what the node then applies of what the action
/// has staged there, it applies under the one commit basis of the
/// transaction.
pub proof fn lemma_commit_atomic(
    after: Transaction,
    before: Transaction,
    me: Address,
    sent: Seq<Envelope>,
    i: int,
    node: Reactive,
    node_after: Reactive,
    told: Seq<Envelope>,
    retired: bool,
)
    requires
        after.released(before, me, sent),
        0 <= i < before.state().lock_order().len(),
        handled(
            node,
            node_after,
            sent[i].target,
            sent[i].sender,
            sent[i].message,
            told,
            retired,
        ),
    ensures
        sent[i].sender == me,
        sent[i].target == before.state().lock_order()[i],
        sent[i].message matches Message::Release { txid, basis } && txid == before.state().id()
            && basis@ == before.state().commit_basis() && lock_released(
            node,
            node_after,
            sent[i].target,
            txid,
            basis,
            told,
        ),
{
    let held = before.state().lock_order();
    assert(is_release(
        sent[0 + i],
        me,
        held[i],
        before.state().id(),
        before.state().commit_basis(),
    ));
}

/// The existing nodes among `reads`, in order: all of them, or where
/// `definite` is set only those whose reads are marked as definite.
pub open spec fn existing(reads: Seq<(Ident, bool)>, definite: bool) -> Seq<VersionedAddress>
    decreases reads.len(),
{
    if reads.len() == 0 {
        Seq::empty()
    } else {
        let earlier = existing(reads.drop_last(), definite);
        match reads.last().0 {
            Ident::Existing(node) => if reads.last().1 || !definite {
                earlier.push(node)
            } else {
                earlier
            },
            Ident::New(_) => earlier,
        }
    }
}

/// The nodes that were visited, by value.
fn by_value(visited: &Vec<(&VersionedAddress, bool)>) -> (nodes: Vec<VersionedAddress>)
    ensures
        nodes@.len() == visited@.len(),
        forall|k: int| 0 <= k < nodes@.len() ==> nodes@[k] == *(#[trigger] visited@[k]).0,
{
    let mut nodes: Vec<VersionedAddress> = Vec::new();
    let mut i: usize = 0;
    while i < visited.len()
        invariant
            i <= visited@.len(),
            nodes@.len() == i,
            forall|k: int| 0 <= k < i ==> nodes@[k] == *(#[trigger] visited@[k]).0,
        decreases visited@.len() - i,
    {
        nodes.push(*visited[i].0);
        i += 1;
    }
    nodes
}

/// The existing nodes that `upgrade` reads: see [`existing`].
fn existing_reads(upgrade: &Upgrade, definite: bool) -> (nodes: Vec<VersionedAddress>)
    ensures
        nodes@ == existing(upgrade@.reads(), definite),
{
    let mut visited: Vec<(&Ident, bool)> = Vec::new();
    let ghost none = visited@;
    upgrade.visit_reads(&mut visited);
    let ghost reads = upgrade@.reads();
    proof {
        assert forall|k: int| 0 <= k < reads.len() implies *(#[trigger] visited@[k]).0 == reads[k].0
            && visited@[k].1 == reads[k].1 by {
            assert(*visited@[none.len() + k].0 == reads[k].0);
        }
    }
    let mut nodes: Vec<VersionedAddress> = Vec::new();
    let mut i: usize = 0;
    while i < visited.len()
        invariant
            i <= visited@.len(),
            visited@.len() == reads.len(),
            forall|k: int|
                0 <= k < reads.len() ==> *(#[trigger] visited@[k]).0 == reads[k].0 && visited@[k].1
                    == reads[k].1,
            nodes@ == existing(reads.take(i as int), definite),
        decreases visited@.len() - i,
    {
        proof {
            assert(reads.take(i + 1).drop_last() =~= reads.take(i as int));
            assert(reads.take(i + 1).last() == reads[i as int]);
        }
        match visited[i].0 {
            Ident::Existing(node) => {
                if visited[i].1 || !definite {
                    nodes.push(*node);
                }
            },
            Ident::New(_) => {},
        }
        i += 1;
    }
    proof {
        assert(reads.take(i as int) =~= reads);
    }
    nodes
}

} // verus!
