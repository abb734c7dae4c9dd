use reactive_fabric::actor::{Actor, ActorConfiguration, Address, Context, Envelope};
use reactive_fabric::address_map::{AddressMap, AddressSet};
use reactive_fabric::basis::{BasisStamp, Iteration};
use reactive_fabric::expr::{Expr, Value};
use reactive_fabric::message::{
    InputMetadata, LockKind, Message, ReactiveConfiguration, StampedValue, Violation,
};
use reactive_fabric::reactive::Reactive;
use reactive_fabric::router::{Router, Run, Step};
use reactive_fabric::txid::{Timestamp, TxId, TxPriority};

/// The actors of these tests: reactive nodes, and probes that keep what they
/// are sent.
enum Cast {
    Node(Reactive),
    Probe(Vec<(Address, Message)>),
    /// Retires on the first message.
    Mayfly,
    /// Spawns a probe on the first message and sends it a message.
    Parent(Option<Address>),
}

impl Actor for Cast {
    fn check(&self, _sender: Address, message: &Message) -> Option<Violation> {
        match self {
            Cast::Node(node) => node.check(message),
            _ => None,
        }
    }

    fn handle(&mut self, sender: Address, message: Message, ctx: &mut Context<Cast>) {
        match self {
            Cast::Node(node) => node.handle(sender, message, ctx),
            Cast::Probe(seen) => seen.push((sender, message)),
            Cast::Mayfly => ctx.retire(),
            Cast::Parent(child) => {
                let address = ctx.spawn(Cast::Probe(Vec::new())).unwrap();
                ctx.send(address, message);
                *child = Some(address);
            }
        }
    }
}

/// A probe that greets another actor as it comes to life.
struct Greeter(Address);

impl ActorConfiguration<Cast> for Greeter {
    fn create(self, ctx: &mut Context<Cast>) -> Cast {
        ctx.send(self.0, Message::Retire { txid: tx(TxPriority::Low, ctx.me().index as u64) });
        Cast::Probe(Vec::new())
    }
}

fn addr(index: usize) -> Address {
    Address { index }
}

fn tx(priority: TxPriority, micros: u64) -> TxId {
    TxId { priority, timestamp: Timestamp { epoch_micros: micros }, address: addr(0) }
}

fn stamp(entries: &[(usize, usize)]) -> BasisStamp {
    let mut basis = BasisStamp::empty();
    for (index, iteration) in entries {
        basis.add(addr(*index), Iteration(*iteration));
    }
    basis
}

fn seen(router: &Router<Cast>, probe: Address) -> &Vec<(Address, Message)> {
    match router.actor(probe) {
        Some(Cast::Probe(seen)) => seen,
        _ => panic!("no probe at {:?}", probe),
    }
}

fn note(index: u64) -> Message {
    Message::Preempt { txid: tx(TxPriority::Low, index) }
}

#[test]
fn addresses_are_handed_out_in_order() {
    let mut router: Router<Cast> = Router::new();
    assert_eq!(router.spawn(Cast::Probe(Vec::new())), Some(addr(0)));
    assert_eq!(router.spawn(Cast::Mayfly), Some(addr(1)));
    assert_eq!(router.spawn(Cast::Probe(Vec::new())), Some(addr(2)));
    assert!(router.actor(addr(1)).is_some());
    assert!(router.actor(addr(3)).is_none());
}

#[test]
fn an_idle_router_does_nothing() {
    let mut router: Router<Cast> = Router::new();
    assert_eq!(router.step(), Step::Idle);
    assert_eq!(router.run(10), Run { steps: 0, refused: None });
}

#[test]
fn messages_are_delivered_in_the_order_in_which_they_were_sent() {
    let mut router: Router<Cast> = Router::new();
    let probe = router.spawn(Cast::Probe(Vec::new())).unwrap();
    router.send(addr(7), probe, note(1));
    router.send(addr(8), probe, note(2));
    router.send(addr(7), probe, note(3));
    assert_eq!(router.pending(), 3);
    assert_eq!(router.step(), Step::Delivered { target: probe });
    assert_eq!(router.run(10), Run { steps: 2, refused: None });
    assert_eq!(
        seen(&router, probe),
        &vec![(addr(7), note(1)), (addr(8), note(2)), (addr(7), note(3))]
    );
}

#[test]
fn a_configuration_comes_to_life_with_a_context() {
    let mut router: Router<Cast> = Router::new();
    let probe = router.spawn(Cast::Probe(Vec::new())).unwrap();
    let greeter = router.spawn(Greeter(probe)).unwrap();
    assert_eq!(greeter, addr(1));
    assert_eq!(router.pending(), 1);
    router.run(10);
    assert_eq!(
        seen(&router, probe),
        &vec![(greeter, Message::Retire { txid: tx(TxPriority::Low, 1) })]
    );
}

#[test]
fn a_spawned_actor_is_registered_at_the_address_it_was_given() {
    let mut router: Router<Cast> = Router::new();
    let parent = router.spawn(Cast::Parent(None)).unwrap();
    router.spawn(Cast::Mayfly).unwrap();
    router.send(addr(9), parent, note(1));
    assert_eq!(router.step(), Step::Delivered { target: parent });
    let child = match router.actor(parent) {
        Some(Cast::Parent(Some(child))) => *child,
        _ => panic!("the parent did not spawn"),
    };
    assert_eq!(child, addr(2));
    assert!(seen(&router, child).is_empty());
    router.run(10);
    assert_eq!(seen(&router, child), &vec![(parent, note(1))]);
}

#[test]
fn the_sender_of_an_undeliverable_message_is_told_next() {
    let mut router: Router<Cast> = Router::new();
    let probe = router.spawn(Cast::Probe(Vec::new())).unwrap();
    let mayfly = router.spawn(Cast::Mayfly).unwrap();
    router.send(probe, mayfly, note(1));
    assert_eq!(router.step(), Step::Delivered { target: mayfly });
    assert!(router.actor(mayfly).is_none());
    router.send(probe, mayfly, note(2));
    router.send(addr(9), probe, note(3));
    assert_eq!(router.step(), Step::Bounced);
    // The notice is delivered before the message that was queued earlier.
    assert_eq!(router.step(), Step::Delivered { target: probe });
    assert_eq!(
        seen(&router, probe),
        &vec![(mayfly, Message::Unreachable { message: Box::new(note(2)) })]
    );
    router.run(10);
    assert_eq!(seen(&router, probe).len(), 2);
}

#[test]
fn retire_crossfire_drains() {
    let mut router: Router<Cast> = Router::new();
    let a = router.spawn(Cast::Mayfly).unwrap();
    let b = router.spawn(Cast::Mayfly).unwrap();
    // Both retire.
    router.send(addr(9), a, note(0));
    router.send(addr(9), b, note(0));
    router.run(10);
    assert!(router.actor(a).is_none());
    assert!(router.actor(b).is_none());
    // A message is in flight in each direction.
    router.send(a, b, note(1));
    router.send(b, a, note(2));
    assert_eq!(router.step(), Step::Bounced);
    assert_eq!(router.pending(), 2);
    assert_eq!(router.step(), Step::Dropped);
    assert_eq!(router.step(), Step::Bounced);
    assert_eq!(router.step(), Step::Dropped);
    assert_eq!(router.step(), Step::Idle);
    assert_eq!(router.pending(), 0);
}

#[test]
fn a_run_ends_at_its_limit() {
    let mut router: Router<Cast> = Router::new();
    let probe = router.spawn(Cast::Probe(Vec::new())).unwrap();
    for index in 0..5 {
        router.send(addr(9), probe, note(index));
    }
    assert_eq!(router.run(3), Run { steps: 3, refused: None });
    assert_eq!(router.pending(), 2);
}

#[test]
fn a_run_ends_where_a_message_is_refused() {
    let mut router: Router<Cast> = Router::new();
    let node = router
        .spawn(Cast::Node(Reactive::new(ReactiveConfiguration::Variable {
            value: StampedValue { value: Value::Integer(0), basis: BasisStamp::empty() },
        })))
        .unwrap();
    router.send(addr(9), node, Message::Abort { txid: tx(TxPriority::Low, 1) });
    router.send(addr(9), node, note(1));
    assert_eq!(
        router.run(10),
        Run { steps: 1, refused: Some((node, Violation::AbortUnheld)) }
    );
    assert_eq!(router.pending(), 1);
}

#[test]
fn a_definition_over_a_variable_follows_it() {
    let mut router: Router<Cast> = Router::new();
    let client = router.spawn(Cast::Probe(Vec::new())).unwrap();
    let v = router
        .spawn(Cast::Node(Reactive::new(ReactiveConfiguration::Variable {
            value: StampedValue { value: Value::Integer(0), basis: BasisStamp::empty() },
        })))
        .unwrap();
    let mut ancestors = AddressSet::new();
    ancestors.insert(v);
    let d = router
        .spawn(Cast::Node(Reactive::new(ReactiveConfiguration::Definition {
            expr: Expr::Read(v),
            inputs: vec![(v, InputMetadata { ancestors })],
        })))
        .unwrap();
    // A first transaction subscribes the definition to the variable and the
    // client to the definition.
    let t0 = TxId {
        priority: TxPriority::High,
        timestamp: Timestamp { epoch_micros: 1 },
        address: client,
    };
    for (node, subscriber) in [(v, d), (d, client)] {
        let mut changes = AddressMap::new();
        changes.insert(subscriber, true);
        router.send(client, node, Message::Lock { txid: t0, kind: LockKind::Shared });
        router.send(client, node, Message::UpdateSubscriptions { txid: t0, changes });
        router.send(client, node, Message::Release { txid: t0, basis: BasisStamp::empty() });
    }
    assert_eq!(router.run(100).refused, None);
    // A second transaction writes the variable.
    let t1 = TxId {
        priority: TxPriority::High,
        timestamp: Timestamp { epoch_micros: 2 },
        address: client,
    };
    let v_index = v.index;
    router.send(client, v, Message::Lock { txid: t1, kind: LockKind::Exclusive });
    router.send(client, v, Message::Write { txid: t1, value: Value::Integer(2) });
    router.send(client, v, Message::Release { txid: t1, basis: stamp(&[(v_index, 1)]) });
    assert_eq!(router.run(100).refused, None);
    assert_eq!(router.pending(), 0);
    let propagated: Vec<&(Address, Message)> = seen(&router, client)
        .iter()
        .filter(|(_, message)| matches!(message, Message::Propagate { .. }))
        .collect();
    assert_eq!(propagated.len(), 1);
    assert_eq!(
        propagated[0],
        &(
            d,
            Message::Propagate {
                sender: d,
                value: StampedValue { value: Value::Integer(2), basis: stamp(&[(v_index, 1)]) },
            }
        )
    );
}

#[test]
fn a_pipeline_of_definitions_carries_a_write_through() {
    // x is a variable, y reads x, z reads y.
    let mut router: Router<Cast> = Router::new();
    let client = router.spawn(Cast::Probe(Vec::new())).unwrap();
    let x = router
        .spawn(Cast::Node(Reactive::new(ReactiveConfiguration::Variable {
            value: StampedValue { value: Value::Integer(0), basis: BasisStamp::empty() },
        })))
        .unwrap();
    let reads = |input: Address, root: Address| {
        let mut ancestors = AddressSet::new();
        ancestors.insert(root);
        Cast::Node(Reactive::new(ReactiveConfiguration::Definition {
            expr: Expr::Read(input),
            inputs: vec![(input, InputMetadata { ancestors })],
        }))
    };
    let y = router.spawn(reads(x, x)).unwrap();
    let z = router.spawn(reads(y, x)).unwrap();
    let t0 = TxId {
        priority: TxPriority::High,
        timestamp: Timestamp { epoch_micros: 1 },
        address: client,
    };
    for (node, subscriber) in [(x, y), (y, z), (z, client)] {
        let mut changes = AddressMap::new();
        changes.insert(subscriber, true);
        router.send(client, node, Message::Lock { txid: t0, kind: LockKind::Shared });
        router.send(client, node, Message::UpdateSubscriptions { txid: t0, changes });
        router.send(client, node, Message::Release { txid: t0, basis: BasisStamp::empty() });
    }
    assert_eq!(router.run(100).refused, None);
    let t1 = TxId {
        priority: TxPriority::Low,
        timestamp: Timestamp { epoch_micros: 2 },
        address: client,
    };
    router.send(client, x, Message::Lock { txid: t1, kind: LockKind::Exclusive });
    router.send(client, x, Message::Write { txid: t1, value: Value::Integer(2) });
    router.send(client, x, Message::Release { txid: t1, basis: stamp(&[(x.index, 1)]) });
    assert_eq!(router.run(100).refused, None);
    let last = seen(&router, client).last().unwrap();
    assert_eq!(
        last,
        &(
            z,
            Message::Propagate {
                sender: z,
                value: StampedValue { value: Value::Integer(2), basis: stamp(&[(x.index, 1)]) },
            }
        )
    );
    match router.actor(z) {
        Some(Cast::Node(node)) => {
            assert_eq!(node.value().unwrap().value, Value::Integer(2));
            assert_eq!(node.value().unwrap().basis.latest(x), Iteration(1));
        }
        _ => panic!("no node at z"),
    }
}

#[test]
fn envelopes_name_sender_and_target() {
    let mut ctx: Context<Cast> = Context::new(addr(4), 10);
    assert_eq!(ctx.me(), addr(4));
    ctx.send(addr(5), note(1));
    assert_eq!(ctx.spawn(Cast::Mayfly), Some(addr(10)));
    assert_eq!(ctx.spawn(Cast::Mayfly), Some(addr(11)));
    assert!(!ctx.is_retired());
    ctx.retire();
    let (sent, spawned, retired) = ctx.finish();
    assert_eq!(sent, vec![Envelope { sender: addr(4), target: addr(5), message: note(1) }]);
    assert_eq!(spawned.len(), 2);
    assert!(retired);
}

#[test]
fn a_context_without_addresses_left_spawns_nothing() {
    let mut ctx: Context<Cast> = Context::new(addr(4), usize::MAX);
    assert_eq!(ctx.spawn(Cast::Mayfly), None);
    let mut ctx: Context<Cast> = Context::new(addr(4), usize::MAX - 1);
    assert_eq!(ctx.spawn(Cast::Mayfly), Some(addr(usize::MAX - 1)));
    assert_eq!(ctx.spawn(Cast::Mayfly), None);
}
