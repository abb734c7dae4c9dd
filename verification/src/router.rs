//! The router: it hosts the actors, and delivers their messages one at a
//! time, in the order in which they were sent.

use crate::actor::{all_valid, Actor, ActorConfiguration, Address, Context, Envelope};
use crate::message::{Message, Violation};
use std::collections::VecDeque;
use vstd::prelude::*;

verus! {

/// What one step of the router did.
#[derive(Debug, Clone, Copy, PartialEq, Eq, Structural)]
pub enum Step {
    /// No message was queued.
    Idle,
    /// The message at the head of the queue was handled by its target.
    Delivered { target: Address },
    /// The target of the message at the head of the queue refused it, because
    /// it broke the target's protocol.
    Refused { target: Address, violation: Violation },
    /// The target of the message at the head of the queue no longer exists.
    /// The sender is told so with the next message to be delivered.
    Bounced,
    /// The message at the head of the queue told of an unreachable target, and
    /// its own target no longer exists either. Nobody is left to tell.
    Dropped,
}

/// How a run of the router ended.
#[derive(Debug, Clone, Copy, PartialEq, Eq)]
pub struct Run {
    /// The number of steps that were taken.
    pub steps: usize,
    /// The actor that refused a message, with its reason; the run ends there.
    pub refused: Option<(Address, Violation)>,
}

/// Whether `address` is the address of a registered actor.
pub open spec fn is_live<A>(actors: Seq<Option<A>>, address: Address) -> bool {
    address.index < actors.len() && actors[address.index as int] is Some
}

/// The notice that `envelope` could not be delivered: it goes from the
/// target that no longer exists to the sender.
pub open spec fn bounce(envelope: Envelope) -> Envelope {
    Envelope {
        sender: envelope.target,
        target: envelope.sender,
        message: Message::Unreachable { message: Box::new(envelope.message) },
    }
}

/// The queue after a step in which the message at the head of `queue` cannot
/// be delivered: the notice of it comes to the head of the queue, unless the
/// message is such a notice itself, which is dropped.
pub open spec fn undeliverable(queue: Seq<Envelope>) -> Seq<Envelope> {
    if queue.len() == 0 {
        queue
    } else if queue[0].message is Unreachable {
        queue.skip(1)
    } else {
        seq![bounce(queue[0])] + queue.skip(1)
    }
}

/// The number of steps that it takes to get rid of `queue` where none of its
/// messages can be delivered: two for a message, one for a notice.
pub open spec fn drain_steps(queue: Seq<Envelope>) -> nat
    decreases queue.len(),
{
    if queue.len() == 0 {
        0
    } else {
        drain_steps(queue.drop_last()) + if queue.last().message is Unreachable {
            1nat
        } else {
            2nat
        }
    }
}

/// The steps of a queue that starts with `head` are those of `head` and
/// those of the rest.
pub proof fn lemma_drain_steps_head(queue: Seq<Envelope>)
    requires
        queue.len() > 0,
    ensures
        drain_steps(queue) == drain_steps(queue.skip(1)) + if queue[0].message is Unreachable {
            1nat
        } else {
            2nat
        },
    decreases queue.len(),
{
    if queue.len() == 1 {
        assert(queue.drop_last() =~= Seq::<Envelope>::empty());
        assert(queue.skip(1) =~= Seq::<Envelope>::empty());
    } else {
        lemma_drain_steps_head(queue.drop_last());
        assert(queue.drop_last().skip(1) =~= queue.skip(1).drop_last());
        assert(queue.skip(1).last() == queue.last());
        assert(queue.drop_last()[0] == queue[0]);
    }
}

/// A step that cannot deliver makes progress: a message that cannot be
/// delivered is answered by one notice, the notice is never answered, and so
/// the exchange between two actors that have both retired comes to an end.
pub proof fn lemma_undeliverable_progress(queue: Seq<Envelope>)
    requires
        queue.len() > 0,
    ensures
        drain_steps(undeliverable(queue)) + 1 == drain_steps(queue),
        !(queue[0].message is Unreachable) ==> undeliverable(queue)[0].message is Unreachable
            && undeliverable(undeliverable(queue)) == queue.skip(1),
{
    lemma_drain_steps_head(queue);
    if !(queue[0].message is Unreachable) {
        let next = undeliverable(queue);
        lemma_drain_steps_head(next);
        assert(next.skip(1) =~= queue.skip(1));
    }
}

/// The router.
pub struct Router<A> {
    queue: VecDeque<Envelope>,
    actors: Vec<Option<A>>,
}

impl<A: Actor> Router<A> {
    /// The messages that wait to be delivered, next first.
    pub closed spec fn queue(&self) -> Seq<Envelope> {
        self.queue@
    }

    /// The registry: the actor at the address with index `i` stands at place
    /// `i`, and `None` stands where an actor has retired.
    pub closed spec fn actors(&self) -> Seq<Option<A>> {
        self.actors@
    }

    /// Every registered actor keeps its invariant.
    pub open spec fn wf(&self) -> bool {
        forall|i: int|
            0 <= i < self.actors().len() ==> ((#[trigger] self.actors()[i]) matches Some(actor)
                ==> actor.valid())
    }

    /// Whether `after` is the registry `before` once the actor at `target` has
    /// handled a message: the actor is still there unless it retired, the
    /// actors it spawned have joined, and no other actor has changed.
    pub open spec fn registry_after(
        before: Seq<Option<A>>,
        after: Seq<Option<A>>,
        target: Address,
    ) -> bool {
        &&& before.len() <= after.len()
        &&& forall|i: int|
            0 <= i < before.len() && i != target.index ==> #[trigger] after[i] == before[i]
        &&& forall|i: int| before.len() <= i < after.len() ==> (#[trigger] after[i]) is Some
    }

    /// A router without actors and without messages.
    pub fn new() -> (router: Self)
        ensures
            router.wf(),
            router.queue() == Seq::<Envelope>::empty(),
            router.actors() == Seq::<Option<A>>::empty(),
    {
        Router { queue: VecDeque::new(), actors: Vec::new() }
    }

    /// The number of messages that wait to be delivered.
    pub fn pending(&self) -> (n: usize)
        ensures
            n == self.queue().len(),
    {
        self.queue.len()
    }

    /// The actor at `address`, if one is registered there.
    pub fn actor(&self, address: Address) -> (actor: Option<&A>)
        ensures
            match actor {
                Some(a) => is_live(self.actors(), address) && self.actors()[address.index as int]
                    == Some(*a),
                None => !is_live(self.actors(), address),
            },
    {
        if address.index < self.actors.len() {
            self.actors[address.index].as_ref()
        } else {
            None
        }
    }

    /// Queues `message` to be sent from `from` to `to`, behind the messages
    /// that already wait.
    pub fn send(&mut self, from: Address, to: Address, message: Message)
        ensures
            final(self).queue() == old(self).queue().push(
                Envelope { sender: from, target: to, message },
            ),
            final(self).actors() == old(self).actors(),
    {
        self.queue.push_back(Envelope { sender: from, target: to, message });
    }

    /// Carries out what the actor at `target` did through `ctx` while it
    /// handled a message or came to life: its messages join the queue in the
    /// order in which they were sent, the actors it spawned are registered at
    /// the addresses they were given, and the actor itself goes back to its
    /// place unless it has retired.
    pub fn absorb(&mut self, target: Address, actor: A, ctx: Context<A>)
        requires
            old(self).wf(),
            actor.valid(),
            all_valid(ctx.spawned()),
            target.index < old(self).actors().len(),
            ctx.first_spawn() == old(self).actors().len(),
        ensures
            final(self).wf(),
            final(self).queue() == old(self).queue() + ctx.sent(),
            final(self).actors() == Self::absorbed(old(self).actors(), target, actor, ctx),
    {
        let ghost queue0 = self.queue@;
        let ghost actors0 = self.actors@;
        let (outbox, spawned, retired) = ctx.finish();
        let mut outbox = outbox;
        let mut spawned = spawned;
        let mut slot = if retired {
            None
        } else {
            Some(actor)
        };
        core::mem::swap(&mut self.actors[target.index], &mut slot);
        let ghost actors1 = self.actors@;
        // The messages keep their order: they are taken from the back and
        // put in front of those that were taken before.
        let mut rest: VecDeque<Envelope> = VecDeque::new();
        let ghost sent = outbox@;
        while outbox.len() > 0
            invariant
                outbox@ + rest@ == sent,
            decreases outbox@.len(),
        {
            let ghost before = outbox@;
            let ghost tail = rest@;
            match outbox.pop() {
                Some(envelope) => {
                    rest.push_front(envelope);
                    proof {
                        assert(outbox@ + rest@ =~= before + tail);
                    }
                },
                None => {},
            }
        }
        proof {
            assert(rest@ =~= sent);
        }
        self.queue.append(&mut rest);
        let ghost born = spawned@;
        let mut children: Vec<Option<A>> = Vec::new();
        while spawned.len() > 0
            invariant
                spawned@ + children@.map_values(|c: Option<A>| c->Some_0) == born,
                forall|i: int| 0 <= i < children@.len() ==> (#[trigger] children@[i]) is Some,
            decreases spawned@.len(),
        {
            let ghost before = spawned@;
            let ghost tail = children@;
            match spawned.pop() {
                Some(child) => {
                    children.insert(0, Some(child));
                    proof {
                        assert(spawned@ + children@.map_values(|c: Option<A>| c->Some_0) =~= before
                            + tail.map_values(|c: Option<A>| c->Some_0));
                    }
                },
                None => {},
            }
        }
        proof {
            assert(children@.map_values(|c: Option<A>| c->Some_0) =~= born);
            assert(children@ =~= born.map_values(|a: A| Some(a)));
        }
        self.actors.append(&mut children);
        proof {
            assert forall|i: int| 0 <= i < self.actors@.len() implies ((#[trigger] self.actors@[i])
                matches Some(a) ==> a.valid()) by {
                if i < actors0.len() {
                    if i != target.index {
                        assert(self.actors@[i] == actors0[i]);
                    }
                } else {
                    assert(self.actors@[i] == Some(born[i - actors0.len()]));
                }
            }
        }
    }

    /// Whether this is the router `before` once the actor that
    /// `configuration` makes was spawned at `address`, the next free address.
    /// The actor was made with a fresh context of its own: see
    /// [`ActorConfiguration::creates`]. What it sent stands at the end of the
    /// queue; the actor stands in the registry at its address, unless it has
    /// retired at once, and the actors that it spawned stand behind it.
    pub open spec fn spawned_from<C: ActorConfiguration<A>>(
        &self,
        before: Router<A>,
        configuration: C,
        address: Address,
    ) -> bool {
        exists|actor: A, ctx: Context<A>, left: Context<A>|
            {
                &&& #[trigger] configuration.creates(actor, ctx, left)
                &&& ctx.fresh(address, before.actors().len() + 1)
                &&& left.extends(&ctx)
                &&& self.queue() == before.queue() + left.sent()
                &&& self.actors() == Self::absorbed(
                    before.actors().push(None),
                    address,
                    actor,
                    left,
                )
            }
    }

    /// Spawns the actor that `configuration` describes, and returns its
    /// address. The actor comes to life with a context of its own: what it
    /// sends and spawns through it is carried out before `spawn` returns.
    /// Returns `None`, and does nothing, where no address is left.
    pub fn spawn<C: ActorConfiguration<A>>(&mut self, configuration: C) -> (address: Option<Address>)
        requires
            old(self).wf(),
            configuration.ready(),
        ensures
            final(self).wf(),
            old(self).queue().is_prefix_of(final(self).queue()),
            address is Some <==> old(self).actors().len() < usize::MAX,
            match address {
                Some(a) => {
                    &&& a.index == old(self).actors().len()
                    &&& Self::registry_after(
                        old(self).actors().push(None),
                        final(self).actors(),
                        a,
                    )
                    &&& final(self).spawned_from(*old(self), configuration, a)
                },
                None => *final(self) == *old(self),
            },
    {
        let index = self.actors.len();
        if index >= usize::MAX {
            return None;
        }
        let address = Address { index };
        self.actors.push(None);
        let mut ctx: Context<A> = Context::new(address, index + 1);
        let ghost start = ctx;
        let actor = configuration.create(&mut ctx);
        proof {
            assert(configuration.creates(actor, start, ctx));
        }
        self.absorb(address, actor, ctx);
        Some(address)
    }

    /// Whether this is the router `before` after one step that did `step`.
    /// With nothing queued the router idles. A message whose target no
    /// longer exists is bounced or dropped: see [`undeliverable`]. Any other
    /// message is taken from the queue and goes to its target: see
    /// [`Router::delivered`].
    pub open spec fn stepped(&self, before: Router<A>, step: Step) -> bool {
        let queue = before.queue();
        if queue.len() == 0 {
            &&& step is Idle
            &&& self.queue() == queue
            &&& self.actors() == before.actors()
        } else if !is_live(before.actors(), queue[0].target) {
            &&& self.queue() == undeliverable(queue)
            &&& self.actors() == before.actors()
            &&& step == if queue[0].message is Unreachable {
                Step::Dropped
            } else {
                Step::Bounced
            }
        } else {
            self.delivered(before, step)
        }
    }

    /// Whether this is the router `before` after a step that took the
    /// message at the head of the queue to its target, which is registered.
    /// Where the target refuses the message, nothing else changes, and the
    /// step says why: see [`Actor::refuses`]. Else the target has handled the
    /// message, from its sender, with a fresh context of its own: see
    /// [`Actor::handles`]. What it sent stands at the end of the queue; the
    /// target stands in the registry as it has become, unless it has
    /// retired, and the actors that it spawned stand behind the others.
    pub open spec fn delivered(&self, before: Router<A>, step: Step) -> bool {
        let queue = before.queue();
        let target = queue[0].target;
        let actor = before.actors()[target.index as int]->Some_0;
        match actor.refuses(queue[0].sender, queue[0].message) {
            Some(violation) => {
                &&& self.queue() == queue.skip(1)
                &&& self.actors() == before.actors()
                &&& step == (Step::Refused { target, violation })
            },
            None => {
                &&& step == (Step::Delivered { target })
                &&& exists|after: A, ctx: Context<A>, left: Context<A>|
                    {
                        &&& #[trigger] actor.handles(
                            after,
                            queue[0].sender,
                            queue[0].message,
                            ctx,
                            left,
                        )
                        &&& ctx.fresh(target, before.actors().len())
                        &&& left.extends(&ctx)
                        &&& self.queue() == queue.skip(1) + left.sent()
                        &&& self.actors() == Self::absorbed(before.actors(), target, after, left)
                    }
            },
        }
    }

    /// The registry `actors` once the actor at `target` has become `actor`
    /// and has left the context `left`: the actor stands at its place unless
    /// it has retired, and the actors that it spawned stand behind the
    /// others.
    pub open spec fn absorbed(
        actors: Seq<Option<A>>,
        target: Address,
        actor: A,
        left: Context<A>,
    ) -> Seq<Option<A>> {
        actors.update(
            target.index as int,
            if left.retired() {
                None
            } else {
                Some(actor)
            },
        ) + left.spawned().map_values(|a: A| Some(a))
    }

    /// Whether this is the router `before` after `steps` steps, none of them
    /// idle, of which the last, and no other, may have ended with a message
    /// refused, as `refused` says.
    pub open spec fn ran(
        &self,
        before: Router<A>,
        steps: nat,
        refused: Option<(Address, Violation)>,
    ) -> bool
        decreases steps,
    {
        if steps == 0 {
            &&& self.queue() == before.queue()
            &&& self.actors() == before.actors()
            &&& refused is None
        } else {
            exists|mid: Router<A>, step: Step|
                {
                    &&& mid.ran(before, (steps - 1) as nat, None)
                    &&& #[trigger] self.stepped(mid, step)
                    &&& !(step is Idle)
                    &&& refused == match step {
                        Step::Refused { target, violation } => Some((target, violation)),
                        _ => None,
                    }
                }
        }
    }

    /// Delivers the message at the head of the queue, if there is one, and
    /// says what became of it.
    ///
    /// A message whose target no longer exists cannot be delivered. Its
    /// sender is told so at once: the notice goes to the head of the queue.
    /// A notice that cannot be delivered is dropped, and nothing else is ever
    /// dropped. A message that its target refuses breaks the target's
    /// protocol: it is taken from the queue, and the target is not touched.
    /// Any other message is handled by its target, which is then put back
    /// unless it retired; what the target sent joins the end of the queue.
    pub fn step(&mut self) -> (step: Step)
        requires
            old(self).wf(),
        ensures
            final(self).wf(),
            final(self).stepped(*old(self), step),
            old(self).queue().len() == 0 ==> {
                &&& step is Idle
                &&& final(self).queue() == old(self).queue()
                &&& final(self).actors() == old(self).actors()
            },
            old(self).queue().len() > 0 ==> !(step is Idle),
            old(self).queue().len() > 0 && !is_live(old(self).actors(), old(self).queue()[0].target)
                ==> {
                &&& final(self).queue() == undeliverable(old(self).queue())
                &&& final(self).actors() == old(self).actors()
                &&& step == if old(self).queue()[0].message is Unreachable {
                    Step::Dropped
                } else {
                    Step::Bounced
                }
            },
            old(self).queue().len() > 0 && is_live(old(self).actors(), old(self).queue()[0].target)
                ==> {
                &&& old(self).queue().skip(1).is_prefix_of(final(self).queue())
                &&& Self::registry_after(
                    old(self).actors(),
                    final(self).actors(),
                    old(self).queue()[0].target,
                )
                &&& (step matches Step::Delivered { target } && target == old(self).queue()[0].target)
                    || (step matches Step::Refused { target, .. } && target == old(self).queue()[0].target)
            },
    {
        let ghost queue0 = self.queue@;
        let envelope = match self.queue.pop_front() {
            Some(envelope) => envelope,
            None => {
                return Step::Idle;
            },
        };
        let Envelope { sender, target, message } = envelope;
        proof {
            assert(self.queue@ =~= queue0.skip(1));
        }
        let live = target.index < self.actors.len() && self.actors[target.index].is_some();
        if !live {
            if message.is_unreachable() {
                return Step::Dropped;
            }
            self.queue.push_front(
                Envelope {
                    sender: target,
                    target: sender,
                    message: Message::Unreachable { message: Box::new(message) },
                },
            );
            return Step::Bounced;
        }
        let refused = match &self.actors[target.index] {
            Some(actor) => actor.check(sender, &message),
            None => None,
        };
        match refused {
            Some(violation) => {
                return Step::Refused { target, violation };
            },
            None => {},
        }
        let mut slot: Option<A> = None;
        core::mem::swap(&mut self.actors[target.index], &mut slot);
        let ghost actors1 = self.actors@;
        match slot {
            Some(mut actor) => {
                let mut ctx: Context<A> = Context::new(target, self.actors.len());
                let ghost start = ctx;
                let ghost before = actor;
                actor.handle(sender, message, &mut ctx);
                let ghost left = ctx;
                let ghost after = actor;
                self.absorb(target, actor, ctx);
                proof {
                    assert(before.handles(after, sender, message, start, left));
                    assert(actors1 =~= old(self).actors().update(target.index as int, None));
                    assert(self.actors() =~= Self::absorbed(old(self).actors(), target, after, left));
                    assert(self.queue() =~= queue0.skip(1) + left.sent());
                    assert(self.delivered(*old(self), Step::Delivered { target }));
                }
                Step::Delivered { target }
            },
            None => {
                proof {
                    assert(false);
                }
                Step::Idle
            },
        }
    }

    /// Takes steps until no message is queued, an actor refuses a message, or
    /// `limit` steps have been taken.
    pub fn run(&mut self, limit: usize) -> (run: Run)
        requires
            old(self).wf(),
        ensures
            final(self).wf(),
            final(self).ran(*old(self), run.steps as nat, run.refused),
            run.steps <= limit,
            run.steps < limit && run.refused is None ==> final(self).queue().len() == 0,
            old(self).queue().len() > 0 && limit > 0 ==> run.steps > 0,
            old(self).queue().len() == 0 || limit == 0 ==> {
                &&& run.steps == 0
                &&& run.refused is None
                &&& final(self).queue() == old(self).queue()
                &&& final(self).actors() == old(self).actors()
            },
            run.refused is Some ==> run.steps > 0,
    {
        let mut steps: usize = 0;
        while steps < limit
            invariant
                self.wf(),
                steps <= limit,
                steps == 0 ==> self.queue() == old(self).queue() && self.actors() == old(self).actors(),
                steps > 0 ==> old(self).queue().len() > 0,
                self.ran(*old(self), steps as nat, None),
            decreases limit - steps,
        {
            let ghost mid = *self;
            let step = self.step();
            match step {
                Step::Idle => {
                    proof {
                        if steps > 0 {
                            let (earlier, last) = choose|earlier: Router<A>, last: Step|
                                {
                                    &&& earlier.ran(*old(self), (steps - 1) as nat, None)
                                    &&& #[trigger] mid.stepped(earlier, last)
                                    &&& !(last is Idle)
                                    &&& !(last is Refused)
                                };
                            assert(self.stepped(earlier, last));
                        }
                    }
                    return Run { steps, refused: None };
                },
                Step::Refused { target, violation } => {
                    proof {
                        assert(self.stepped(mid, step));
                    }
                    return Run { steps: steps + 1, refused: Some((target, violation)) };
                },
                _ => {},
            }
            proof {
                assert(self.stepped(mid, step));
            }
            steps += 1;
        }
        Run { steps, refused: None }
    }
}

} // verus!
