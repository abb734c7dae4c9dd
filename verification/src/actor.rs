//! Actors, their addresses, and the context in which one handles a message.

use crate::message::{Message, Violation};
use vstd::prelude::*;

verus! {

/// Identifies one actor instance. Addresses are handed out by the router in
/// increasing order and are compared by their index.
#[derive(Debug, Clone, Copy, PartialEq, Eq, Structural, PartialOrd, Ord, Hash)]
pub struct Address {
    pub index: usize,
}

/// Counts the schema changes that a reactive node has gone through.
#[derive(Debug, Clone, Copy, PartialEq, Eq, Structural, PartialOrd, Ord, Hash)]
pub struct Version(pub usize);

impl Version {
    /// The version of a node that was never reconfigured.
    pub fn zero() -> (v: Version)
        ensures
            v.0 == 0,
    {
        Version(0)
    }

    /// The version that follows this one.
    #[must_use]
    pub fn increment(self) -> (next: Version)
        requires
            self.0 < usize::MAX,
        ensures
            next.0 == self.0 + 1,
    {
        Version(self.0 + 1)
    }
}

/// A reactive node at a given version.
#[derive(Debug, Clone, Copy, PartialEq, Eq, Structural, Hash)]
pub struct VersionedAddress {
    pub address: Address,
    pub version: Version,
}

/// A message on its way: who sent it and who is to handle it.
#[derive(Debug, PartialEq, Eq)]
pub struct Envelope {
    pub sender: Address,
    pub target: Address,
    pub message: Message,
}

/// What an actor may do while it handles a message: learn its own address,
/// send messages, spawn actors, and retire. The router carries all of it out
/// once the actor is done.
pub struct Context<A> {
    me: Address,
    outbox: Vec<Envelope>,
    spawned: Vec<A>,
    first_spawn: usize,
    retired: bool,
}

impl<A> Context<A> {
    /// The address of the actor that the context was made for.
    pub closed spec fn spec_me(&self) -> Address {
        self.me
    }

    /// The messages sent so far, in the order in which they were sent.
    pub closed spec fn sent(&self) -> Seq<Envelope> {
        self.outbox@
    }

    /// The actors spawned so far. The `i`-th of them has the address with the
    /// index `first_spawn() + i`.
    pub closed spec fn spawned(&self) -> Seq<A> {
        self.spawned@
    }

    /// The index of the address that the first spawned actor gets.
    pub closed spec fn first_spawn(&self) -> nat {
        self.first_spawn as nat
    }

    /// Whether the actor has retired.
    pub closed spec fn retired(&self) -> bool {
        self.retired
    }

    /// Whether `self` is what `before` has become by sending, spawning and
    /// retiring alone: what was sent and spawned before is still there, in the
    /// same places, and the context still belongs to the same actor.
    pub open spec fn extends(&self, before: &Self) -> bool {
        &&& self.spec_me() == before.spec_me()
        &&& self.first_spawn() == before.first_spawn()
        &&& before.sent().is_prefix_of(self.sent())
        &&& before.spawned().is_prefix_of(self.spawned())
        &&& before.retired() ==> self.retired()
    }

    /// Whether this is the context that the actor at `me` is handed, in a
    /// system whose next free address has the index `first_spawn`, before the
    /// actor has done anything: nothing is sent or spawned, and the actor has
    /// not retired. The actor's own address is taken, so the free addresses
    /// lie beyond it.
    pub open spec fn fresh(&self, me: Address, first_spawn: nat) -> bool {
        &&& self.spec_me() == me
        &&& self.first_spawn() == first_spawn
        &&& me.index < first_spawn
        &&& self.sent() == Seq::<Envelope>::empty()
        &&& self.spawned() == Seq::<A>::empty()
        &&& !self.retired()
    }

    /// A context for the actor at `me`, in a system whose next free address has
    /// the index `first_spawn`, which lies beyond the actor's own.
    pub fn new(me: Address, first_spawn: usize) -> (ctx: Self)
        requires
            me.index < first_spawn,
        ensures
            ctx.fresh(me, first_spawn as nat),
            ctx.spec_me() == me,
            ctx.first_spawn() == first_spawn,
            ctx.sent() == Seq::<Envelope>::empty(),
            ctx.spawned() == Seq::<A>::empty(),
            !ctx.retired(),
    {
        Context { me, outbox: Vec::new(), spawned: Vec::new(), first_spawn, retired: false }
    }

    /// Gets this actor's address.
    pub fn me(&self) -> (me: Address)
        ensures
            me == self.spec_me(),
    {
        self.me
    }

    /// Queues `message` to be sent to and handled by `target`.
    pub fn send(&mut self, target: Address, message: Message)
        ensures
            final(self).sent() == old(self).sent().push(
                Envelope { sender: old(self).spec_me(), target, message },
            ),
            final(self).spec_me() == old(self).spec_me(),
            final(self).spawned() == old(self).spawned(),
            final(self).first_spawn() == old(self).first_spawn(),
            final(self).retired() == old(self).retired(),
            final(self).extends(old(self)),
    {
        self.outbox.push(Envelope { sender: self.me, target, message });
    }

    /// Spawns a new actor and returns its address. Returns `None`, and spawns
    /// nothing, where no address is left.
    pub fn spawn(&mut self, actor: A) -> (address: Option<Address>)
        ensures
            match address {
                Some(a) => {
                    &&& a.index == old(self).first_spawn() + old(self).spawned().len()
                    &&& old(self).spec_me().index < old(self).first_spawn() ==> a
                        != old(self).spec_me()
                    &&& final(self).spawned() == old(self).spawned().push(actor)
                },
                None => {
                    &&& old(self).first_spawn() + old(self).spawned().len() >= usize::MAX
                    &&& final(self).spawned() == old(self).spawned()
                },
            },
            final(self).spec_me() == old(self).spec_me(),
            final(self).sent() == old(self).sent(),
            final(self).first_spawn() == old(self).first_spawn(),
            final(self).retired() == old(self).retired(),
            final(self).extends(old(self)),
    {
        let taken = self.spawned.len();
        if taken < usize::MAX - self.first_spawn {
            self.spawned.push(actor);
            Some(Address { index: self.first_spawn + taken })
        } else {
            None
        }
    }

    /// The address that the next spawned actor gets; `None` where no address
    /// is left.
    pub fn next_address(&self) -> (address: Option<Address>)
        ensures
            match address {
                Some(a) => a.index == self.first_spawn() + self.spawned().len() && a.index
                    < usize::MAX,
                None => self.first_spawn() + self.spawned().len() >= usize::MAX,
            },
    {
        let taken = self.spawned.len();
        if taken < usize::MAX - self.first_spawn {
            Some(Address { index: self.first_spawn + taken })
        } else {
            None
        }
    }

    /// Retires this actor, meaning it will no longer be asked to handle
    /// messages.
    pub fn retire(&mut self)
        ensures
            final(self).retired(),
            final(self).spec_me() == old(self).spec_me(),
            final(self).sent() == old(self).sent(),
            final(self).spawned() == old(self).spawned(),
            final(self).first_spawn() == old(self).first_spawn(),
            final(self).extends(old(self)),
    {
        self.retired = true;
    }

    /// Whether the actor has retired.
    pub fn is_retired(&self) -> (retired: bool)
        ensures
            retired == self.retired(),
    {
        self.retired
    }

    /// Takes the context apart: what was sent, what was spawned, and whether
    /// the actor retired.
    pub fn finish(self) -> (parts: (Vec<Envelope>, Vec<A>, bool))
        ensures
            parts.0@ == self.sent(),
            parts.1@ == self.spawned(),
            parts.2 == self.retired(),
    {
        (self.outbox, self.spawned, self.retired)
    }
}

/// Something that handles messages.
pub trait Actor: Sized {
    /// The actor's own invariant. It holds of an actor when it is spawned, and
    /// the actor keeps it from message to message. An actor that states none
    /// has none.
    open spec fn valid(&self) -> bool {
        true
    }

    /// Why the actor refuses `message`, which `sender` sent, if it does: the
    /// message breaks the actor's protocol. An actor says here which
    /// messages it refuses; one that does not say refuses none.
    open spec fn refuses(&self, sender: Address, message: Message) -> Option<Violation> {
        None
    }

    /// What the actor does with a message: whether the actor becomes `after`
    /// and the context `ctx` becomes `left` when it handles `message`, which
    /// `sender` sent. An actor says here what its `handle` does; one that
    /// does not say is held to nothing.
    open spec fn handles(
        &self,
        after: Self,
        sender: Address,
        message: Message,
        ctx: Context<Self>,
        left: Context<Self>,
    ) -> bool {
        true
    }

    /// Whether the actor refuses `message`, which `sender` sent, and why:
    /// see [`Actor::refuses`]. The router asks before it hands a message
    /// over.
    fn check(&self, sender: Address, message: &Message) -> (refused: Option<Violation>)
        requires
            self.valid(),
        ensures
            refused == self.refuses(sender, *message),
    ;

    /// Handles `message`, which `sender` sent and which the actor does not
    /// refuse. Whatever the actor does, it does through `ctx`, and only by
    /// sending, spawning and retiring.
    fn handle(&mut self, sender: Address, message: Message, ctx: &mut Context<Self>)
        requires
            old(self).valid(),
            old(self).refuses(sender, message) is None,
            forall|i: int|
                0 <= i < old(ctx).spawned().len() ==> (#[trigger] old(ctx).spawned()[i]).valid(),
            !old(ctx).retired(),
        ensures
            old(self).handles(*final(self), sender, message, *old(ctx), *final(ctx)),
            final(self).valid(),
            final(ctx).extends(old(ctx)),
            forall|i: int|
                0 <= i < final(ctx).spawned().len() ==> (#[trigger] final(ctx).spawned()[i]).valid(),
    ;
}

/// Whether every actor of `actors` keeps its own invariant.
pub open spec fn all_valid<A: Actor>(actors: Seq<A>) -> bool {
    forall|i: int| 0 <= i < actors.len() ==> (#[trigger] actors[i]).valid()
}

/// Something that an actor can be made from, once the new actor's address is
/// known.
pub trait ActorConfiguration<A: Actor>: Sized {
    /// Whether an actor can be made from this. A configuration that states
    /// no condition is always ready.
    open spec fn ready(&self) -> bool {
        true
    }

    /// What is made: whether `actor` is the actor that is made from this,
    /// and `left` is what becomes of the context `ctx` of the new actor. A
    /// configuration says here what its `create` does; one that does not say
    /// is held to nothing.
    open spec fn creates(&self, actor: A, ctx: Context<A>, left: Context<A>) -> bool {
        true
    }

    /// Makes the actor. `ctx` belongs to the new actor: through it the actor
    /// learns its address, sends its first messages and spawns its children.
    fn create(self, ctx: &mut Context<A>) -> (actor: A)
        requires
            self.ready(),
            all_valid(old(ctx).spawned()),
            !old(ctx).retired(),
        ensures
            self.creates(actor, *old(ctx), *final(ctx)),
            actor.valid(),
            final(ctx).extends(old(ctx)),
            all_valid(final(ctx).spawned()),
    ;
}

/// An actor that needs no context to come to life can be spawned as it is.
impl<A: Actor> ActorConfiguration<A> for A {
    open spec fn ready(&self) -> bool {
        self.valid()
    }

    open spec fn creates(&self, actor: A, ctx: Context<A>, left: Context<A>) -> bool {
        actor == *self && left == ctx
    }

    fn create(self, ctx: &mut Context<A>) -> (actor: A)
        ensures
            actor == self,
            *final(ctx) == *old(ctx),
    {
        self
    }
}

} // verus!
