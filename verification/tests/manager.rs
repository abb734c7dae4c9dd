use reactive_fabric::actor::{Actor, Address, Context, Envelope, Version, VersionedAddress};
use reactive_fabric::address_map::{AddressMap, AddressSet};
use reactive_fabric::basis::{BasisStamp, Iteration};
use reactive_fabric::expr::eval::ActionEvalContext;
use reactive_fabric::expr::{Action, Expr, Upgrade, Value};
use reactive_fabric::manager::{Manager, Outcome};
use reactive_fabric::message::{
    InputMetadata, LockKind, Message, NodeKind, ReactiveConfiguration, StampedValue, Violation,
};
use reactive_fabric::expr::{Ident, Name};
use reactive_fabric::reactive::{Host, Reactive};
use reactive_fabric::router::Router;
use reactive_fabric::transaction::{Transaction, TransactionError, TransactionKind, TransactionState};
use reactive_fabric::txid::{Timestamp, TxId, TxPriority};

enum Cast {
    Node(Reactive),
    Manager(Manager),
    Probe(Vec<(Address, Message)>),
}

impl Actor for Cast {
    fn check(&self, _sender: Address, message: &Message) -> Option<Violation> {
        match self {
            Cast::Node(node) => node.check(message),
            Cast::Manager(manager) => manager.check(message),
            Cast::Probe(_) => None,
        }
    }

    fn handle(&mut self, sender: Address, message: Message, ctx: &mut Context<Cast>) {
        match self {
            Cast::Node(node) => node.handle(sender, message, ctx),
            Cast::Manager(manager) => manager.handle(sender, message, ctx),
            Cast::Probe(seen) => seen.push((sender, message)),
        }
    }
}

impl Host for Cast {
    fn host(node: Reactive) -> Cast {
        Cast::Node(node)
    }
}

fn name(text: &str) -> Name {
    Name { text: text.to_string() }
}

fn new(text: &str) -> Ident {
    Ident::New(name(text))
}

fn upgrade(router: &mut Router<Cast>, client: Address, manager: Address, upgrade: Upgrade) {
    router.send(client, manager, Message::Upgrade { upgrade });
    assert_eq!(router.run(1000).refused, None);
    assert_eq!(router.pending(), 0);
}

fn registered(router: &Router<Cast>, manager: Address, text: &str) -> Vec<VersionedAddress> {
    manager_of(router, manager).directory_ref().get(&name(text))
}

fn write(router: &mut Router<Cast>, client: Address, manager: Address, node: VersionedAddress, value: isize) {
    let action = Action::Write(node, Expr::Value(Value::Integer(value)));
    router.send(client, manager, Message::Do { action });
    assert_eq!(router.run(1000).refused, None);
    assert_eq!(router.pending(), 0);
}

fn addr(index: usize) -> Address {
    Address { index }
}

fn at(address: Address) -> VersionedAddress {
    VersionedAddress { address, version: Version(0) }
}

fn stamp(entries: &[(usize, usize)]) -> BasisStamp {
    let mut basis = BasisStamp::empty();
    for (index, iteration) in entries {
        basis.add(addr(*index), Iteration(*iteration));
    }
    basis
}

fn variable(value: isize) -> Cast {
    Cast::Node(Reactive::new(ReactiveConfiguration::Variable {
        value: StampedValue { value: Value::Integer(value), basis: BasisStamp::empty() },
    }))
}

fn value_of(router: &Router<Cast>, node: Address) -> StampedValue {
    match router.actor(node) {
        Some(Cast::Node(node)) => node.value().unwrap().clone(),
        _ => panic!("no node"),
    }
}

fn manager_of(router: &Router<Cast>, manager: Address) -> &Manager {
    match router.actor(manager) {
        Some(Cast::Manager(manager)) => manager,
        _ => panic!("no manager"),
    }
}

fn seen(router: &Router<Cast>, probe: Address) -> &Vec<(Address, Message)> {
    match router.actor(probe) {
        Some(Cast::Probe(seen)) => seen,
        _ => panic!("no probe"),
    }
}

fn subscribe(router: &mut Router<Cast>, from: Address, node: Address, subscriber: Address) {
    let txid = TxId {
        priority: TxPriority::High,
        timestamp: Timestamp { epoch_micros: 1 },
        address: from,
    };
    let mut changes = AddressMap::new();
    changes.insert(subscriber, true);
    router.send(from, node, Message::Lock { txid, kind: LockKind::Shared });
    router.send(from, node, Message::UpdateSubscriptions { txid, changes });
    router.send(from, node, Message::Release { txid, basis: BasisStamp::empty() });
    assert_eq!(router.run(100).refused, None);
}

#[test]
fn an_action_writes_a_variable_and_the_subscribers_hear_of_it() {
    let mut router: Router<Cast> = Router::new();
    let client = router.spawn(Cast::Probe(Vec::new())).unwrap();
    let manager = router.spawn(Cast::Manager(Manager::new(&vec![]))).unwrap();
    let v = router.spawn(variable(0)).unwrap();
    subscribe(&mut router, client, v, client);
    let before = seen(&router, client).len();
    let action = Action::Write(at(v), Expr::Value(Value::Integer(2)));
    router.send(client, manager, Message::Do { action });
    assert_eq!(router.run(100).refused, None);
    assert_eq!(router.pending(), 0);
    assert_eq!(value_of(&router, v).value, Value::Integer(2));
    assert_eq!(value_of(&router, v).basis, stamp(&[(v.index, 1)]));
    let heard = &seen(&router, client)[before..];
    assert_eq!(
        heard,
        &[(
            v,
            Message::Propagate {
                sender: v,
                value: StampedValue { value: Value::Integer(2), basis: stamp(&[(v.index, 1)]) },
            }
        )]
    );
    let manager = manager_of(&router, manager);
    assert_eq!(manager.under_way(), 0);
    assert_eq!(manager.finished().len(), 1);
    assert_eq!(manager.finished()[0].1, Outcome::Completed);
    assert_eq!(manager.finished()[0].0.priority, TxPriority::Low);
}

#[test]
fn an_action_reads_one_variable_and_writes_another() {
    let mut router: Router<Cast> = Router::new();
    let client = router.spawn(Cast::Probe(Vec::new())).unwrap();
    let manager = router.spawn(Cast::Manager(Manager::new(&vec![]))).unwrap();
    let source = router.spawn(variable(5)).unwrap();
    let target = router.spawn(variable(0)).unwrap();
    let action = Action::Write(
        at(target),
        Expr::Tuple(vec![Expr::Read(at(source)), Expr::Value(Value::Integer(1))]),
    );
    router.send(client, manager, Message::Do { action });
    assert_eq!(router.run(100).refused, None);
    assert_eq!(
        value_of(&router, target).value,
        Value::Tuple(vec![Value::Integer(5), Value::Integer(1)])
    );
    assert_eq!(value_of(&router, target).basis.latest(target), Iteration(1));
    // The variable that was only read has not moved on.
    assert_eq!(value_of(&router, source).value, Value::Integer(5));
    assert_eq!(value_of(&router, source).basis.latest(source), Iteration(0));
    assert_eq!(manager_of(&router, manager).finished().len(), 1);
}

#[test]
fn actions_are_done_one_after_the_other() {
    let mut router: Router<Cast> = Router::new();
    let client = router.spawn(Cast::Probe(Vec::new())).unwrap();
    let manager = router.spawn(Cast::Manager(Manager::new(&vec![]))).unwrap();
    let v = router.spawn(variable(0)).unwrap();
    let w = router.spawn(variable(0)).unwrap();
    let action = Action::Then(
        Box::new(Action::Write(at(v), Expr::Value(Value::Integer(1)))),
        Box::new(Action::Write(at(w), Expr::Read(at(v)))),
    );
    router.send(client, manager, Message::Do { action });
    assert_eq!(router.run(100).refused, None);
    assert_eq!(value_of(&router, v).value, Value::Integer(1));
    // The second write reads what the first has written.
    assert_eq!(value_of(&router, w).value, Value::Integer(1));
    // Both are committed with one stamp.
    assert_eq!(value_of(&router, v).basis, value_of(&router, w).basis);
    assert_eq!(value_of(&router, v).basis.latest(v), Iteration(1));
    assert_eq!(value_of(&router, v).basis.latest(w), Iteration(1));
}

#[test]
fn an_action_on_an_outdated_version_is_given_up() {
    let mut router: Router<Cast> = Router::new();
    let client = router.spawn(Cast::Probe(Vec::new())).unwrap();
    let manager = router.spawn(Cast::Manager(Manager::new(&vec![]))).unwrap();
    let v = router.spawn(variable(0)).unwrap();
    let outdated = VersionedAddress { address: v, version: Version(3) };
    let action = Action::Write(outdated, Expr::Value(Value::Integer(2)));
    router.send(client, manager, Message::Do { action });
    assert_eq!(router.run(100).refused, None);
    assert_eq!(value_of(&router, v).value, Value::Integer(0));
    let finished = manager_of(&router, manager).finished();
    assert_eq!(finished.len(), 1);
    assert_eq!(finished[0].1, Outcome::Aborted);
    // The lock was given back: another action goes through.
    let action = Action::Write(at(v), Expr::Value(Value::Integer(7)));
    router.send(client, manager, Message::Do { action });
    assert_eq!(router.run(100).refused, None);
    assert_eq!(value_of(&router, v).value, Value::Integer(7));
}

#[test]
fn a_preempted_transaction_gives_up_its_locks() {
    let mut manager = Manager::new(&vec![]);
    let me = addr(1);
    let v = addr(5);
    let w = addr(6);
    let mut ctx: Context<Cast> = Context::new(me, 100);
    let action = Action::Then(
        Box::new(Action::Write(at(v), Expr::Value(Value::Integer(1)))),
        Box::new(Action::Write(at(w), Expr::Value(Value::Integer(2)))),
    );
    let txid = manager.start_at(TransactionKind::Action(action), 50, &mut ctx).unwrap();
    assert_eq!(txid, TxId { priority: TxPriority::Low, timestamp: Timestamp { epoch_micros: 50 }, address: me });
    let (sent, _, _) = ctx.finish();
    assert_eq!(
        sent,
        vec![
            Envelope { sender: me, target: v, message: Message::Lock { txid, kind: LockKind::Exclusive } },
            Envelope { sender: me, target: w, message: Message::Lock { txid, kind: LockKind::Exclusive } },
        ]
    );
    let mut ctx: Context<Cast> = Context::new(me, 100);
    manager
        .handle(
            v,
            Message::LockGranted {
                txid,
                address: v,
                node_kind: NodeKind::Variable { iteration: Iteration(0) },
                version: Version(0),
            },
            &mut ctx,
        );
    let (sent, _, _) = ctx.finish();
    assert_eq!(
        sent,
        vec![Envelope { sender: me, target: v, message: Message::Write { txid, value: Value::Integer(1) } }]
    );
    let mut ctx: Context<Cast> = Context::new(me, 100);
    manager.handle(v, Message::Preempt { txid }, &mut ctx);
    let (sent, _, _) = ctx.finish();
    assert_eq!(sent, vec![Envelope { sender: me, target: v, message: Message::Abort { txid } }]);
    assert_eq!(manager.under_way(), 0);
    assert_eq!(manager.finished(), &vec![(txid, Outcome::Aborted)]);
    // The lock that was still asked for is given back when it is granted.
    let mut ctx: Context<Cast> = Context::new(me, 100);
    manager
        .handle(
            w,
            Message::LockGranted {
                txid,
                address: w,
                node_kind: NodeKind::Variable { iteration: Iteration(0) },
                version: Version(0),
            },
            &mut ctx,
        );
    let (sent, _, _) = ctx.finish();
    assert_eq!(sent, vec![Envelope { sender: me, target: w, message: Message::Abort { txid } }]);
}

#[test]
fn a_transaction_that_finds_another_version_releases_with_the_empty_stamp() {
    let mut manager = Manager::new(&vec![]);
    let me = addr(1);
    let v = addr(5);
    let w = addr(6);
    let mut ctx: Context<Cast> = Context::new(me, 100);
    let action = Action::Then(
        Box::new(Action::Write(at(v), Expr::Value(Value::Integer(1)))),
        Box::new(Action::Write(
            VersionedAddress { address: w, version: Version(3) },
            Expr::Value(Value::Integer(2)),
        )),
    );
    let txid = manager.start_at(TransactionKind::Action(action), 50, &mut ctx).unwrap();
    let mut ctx: Context<Cast> = Context::new(me, 100);
    manager
        .handle(
            v,
            Message::LockGranted {
                txid,
                address: v,
                node_kind: NodeKind::Variable { iteration: Iteration(0) },
                version: Version(0),
            },
            &mut ctx,
        );
    assert_eq!(manager.under_way(), 1);
    let mut ctx: Context<Cast> = Context::new(me, 100);
    manager
        .handle(
            w,
            Message::LockGranted {
                txid,
                address: w,
                node_kind: NodeKind::Variable { iteration: Iteration(0) },
                version: Version(4),
            },
            &mut ctx,
        );
    let (sent, _, _) = ctx.finish();
    assert_eq!(
        sent,
        vec![
            Envelope { sender: me, target: w, message: Message::Release { txid, basis: BasisStamp::empty() } },
            Envelope { sender: me, target: v, message: Message::Release { txid, basis: BasisStamp::empty() } },
        ]
    );
    assert_eq!(manager.under_way(), 0);
    assert_eq!(manager.finished(), &vec![(txid, Outcome::Aborted)]);
}

#[test]
fn timestamps_of_a_manager_strictly_increase() {
    let mut manager = Manager::new(&vec![]);
    let mut ctx: Context<Cast> = Context::new(addr(1), 100);
    let first = manager.start_at(TransactionKind::Action(Action::Nil), 10, &mut ctx).unwrap();
    let second = manager.start_at(TransactionKind::Action(Action::Nil), 10, &mut ctx).unwrap();
    let third = manager.start_at(TransactionKind::Upgrade(Upgrade::Nil), 4, &mut ctx).unwrap();
    assert_eq!(first.timestamp.epoch_micros, 10);
    assert_eq!(second.timestamp.epoch_micros, 11);
    assert_eq!(third.timestamp.epoch_micros, 12);
    assert_eq!(third.priority, TxPriority::High);
    assert!(third.precedes(&first));
    // An action of which nothing is left commits at once.
    assert_eq!(manager.finished()[0], (first, Outcome::Completed));
    assert_eq!(manager.finished()[1], (second, Outcome::Completed));
}

#[test]
fn a_manager_without_timestamps_refuses() {
    let mut manager = Manager::new(&vec![]);
    let mut ctx: Context<Cast> = Context::new(addr(1), 100);
    assert!(manager.start_at(TransactionKind::Action(Action::Nil), u64::MAX, &mut ctx).is_some());
    assert!(manager.start_at(TransactionKind::Action(Action::Nil), 5, &mut ctx).is_none());
    assert_eq!(
        manager.check(&Message::Do { action: Action::Nil }),
        Some(Violation::TimestampsExhausted)
    );
    assert_eq!(
        manager.check(&Message::Upgrade { upgrade: Upgrade::Nil }),
        Some(Violation::TimestampsExhausted)
    );
    assert_eq!(Manager::new(&vec![]).check(&Message::Do { action: Action::Nil }), None);
}

#[test]
fn messages_for_unknown_transactions() {
    let mut manager = Manager::new(&vec![]);
    let mut ctx: Context<Cast> = Context::new(addr(1), 100);
    let txid = TxId { priority: TxPriority::Low, timestamp: Timestamp { epoch_micros: 1 }, address: addr(1) };
    let value = StampedValue { value: Value::Integer(1), basis: BasisStamp::empty() };
    assert_eq!(
        manager.check(&Message::ReadResult { txid, address: addr(5), value }),
        Some(Violation::UnknownTransaction)
    );
    assert_eq!(manager.check(&Message::Preempt { txid }), None);
    manager.handle(addr(5), Message::Preempt { txid }, &mut ctx);
    assert_eq!(manager.check(&Message::Retire { txid }), Some(Violation::Unexpected));
    assert!(ctx.finish().0.is_empty());
}

#[test]
fn the_commit_basis_is_what_was_read_and_the_next_iteration_of_what_was_written() {
    let me = addr(1);
    let txid = TxId { priority: TxPriority::Low, timestamp: Timestamp { epoch_micros: 1 }, address: me };
    let mut state = TransactionState::new(txid);
    let mut ctx: Context<Cast> = Context::new(me, 100);
    state.note_write(addr(6));
    assert!(state.request(at(addr(5)), LockKind::Shared, &mut ctx));
    assert!(state.request(at(addr(6)), LockKind::Shared, &mut ctx));
    assert!(!state.request(at(addr(6)), LockKind::Shared, &mut ctx));
    let (sent, _, _) = ctx.finish();
    assert_eq!(sent[0].message, Message::Lock { txid, kind: LockKind::Shared });
    // A node that may be written is locked exclusively from the start.
    assert_eq!(sent[1].message, Message::Lock { txid, kind: LockKind::Exclusive });
    assert_eq!(sent.len(), 2);
    state.lock_granted(addr(5), Version(0), NodeKind::Variable { iteration: Iteration(4) }).unwrap();
    state.lock_granted(addr(6), Version(0), NodeKind::Variable { iteration: Iteration(7) }).unwrap();
    assert!(state.compute_commit_basis().is_empty());
    state
        .read_result(addr(5), StampedValue { value: Value::Integer(1), basis: stamp(&[(5, 4), (9, 2)]) })
        .unwrap();
    assert!(state.write(&at(addr(6)), &Value::Integer(3)));
    assert!(!state.write(&at(addr(5)), &Value::Integer(3)));
    let basis = state.compute_commit_basis();
    assert_eq!(basis.latest(addr(5)), Iteration(4));
    assert_eq!(basis.latest(addr(9)), Iteration(2));
    assert_eq!(basis.latest(addr(6)), Iteration(8));
    let mut ctx: Context<Cast> = Context::new(me, 100);
    state.flush_writes(&mut ctx);
    state.release_all(&basis, &mut ctx);
    let (sent, _, _) = ctx.finish();
    assert_eq!(sent.len(), 3);
    assert_eq!(sent[0], Envelope { sender: me, target: addr(6), message: Message::Write { txid, value: Value::Integer(3) } });
    for (envelope, target) in sent[1..].iter().zip([addr(5), addr(6)]) {
        assert_eq!(envelope.target, target);
        match &envelope.message {
            Message::Release { txid: holder, basis: carried } => {
                assert_eq!(*holder, txid);
                assert_eq!(carried.latest(addr(5)), Iteration(4));
                assert_eq!(carried.latest(addr(6)), Iteration(8));
                assert_eq!(carried.latest(addr(9)), Iteration(2));
            }
            other => panic!("unexpected message {:?}", other),
        }
    }
}

#[test]
fn a_grant_must_have_been_asked_for_and_have_the_expected_version() {
    let me = addr(1);
    let txid = TxId { priority: TxPriority::Low, timestamp: Timestamp { epoch_micros: 1 }, address: me };
    let mut transaction = Transaction::new(txid, TransactionKind::Action(Action::Nil));
    assert_eq!(transaction.id(), txid);
    let kind = || NodeKind::Variable { iteration: Iteration(0) };
    assert!(transaction.lock_granted(addr(5), Version(0), kind()).is_err());
    let mut state = TransactionState::new(txid);
    assert_eq!(
        state.lock_granted(addr(5), Version(0), kind()),
        Err(TransactionError::UnexpectedGrant { address: addr(5) })
    );
    let mut ctx: Context<Cast> = Context::new(me, 100);
    state.request(VersionedAddress { address: addr(5), version: Version(2) }, LockKind::Shared, &mut ctx);
    assert_eq!(
        state.lock_granted(addr(5), Version(3), kind()),
        Err(TransactionError::VersionMismatch { address: addr(5), expected: Version(2), granted: Version(3) })
    );
    assert_eq!(state.lock_granted(addr(5), Version(2), kind()), Ok(()));
    assert_eq!(
        state.read_result(addr(6), StampedValue { value: Value::Integer(1), basis: stamp(&[]) }),
        Err(TransactionError::UnexpectedValue { address: addr(6) })
    );
}

#[test]
fn reading_a_definition_takes_locks_on_its_roots_first() {
    let me = addr(1);
    let txid = TxId { priority: TxPriority::Low, timestamp: Timestamp { epoch_micros: 1 }, address: me };
    let mut state = TransactionState::new(txid);
    let d = addr(5);
    let root = addr(9);
    let mut ctx: Context<Cast> = Context::new(me, 100);
    state.want_read(at(d), &mut ctx);
    let mut ancestors = AddressSet::new();
    ancestors.insert(root);
    state.lock_granted(d, Version(0), NodeKind::Definition { ancestors }).unwrap();
    state.want_read(at(d), &mut ctx);
    state.want_read(at(d), &mut ctx);
    state.lock_granted(root, Version(4), NodeKind::Variable { iteration: Iteration(3) }).unwrap();
    state.want_read(at(d), &mut ctx);
    state.want_read(at(d), &mut ctx);
    let (sent, _, _) = ctx.finish();
    assert_eq!(
        sent,
        vec![
            Envelope { sender: me, target: d, message: Message::Lock { txid, kind: LockKind::Shared } },
            Envelope { sender: me, target: root, message: Message::Lock { txid, kind: LockKind::Shared } },
            Envelope { sender: me, target: d, message: Message::Read { txid, basis: stamp(&[(9, 3)]) } },
        ]
    );
}

#[test]
fn an_action_reads_a_definition_through_the_manager() {
    let mut router: Router<Cast> = Router::new();
    let client = router.spawn(Cast::Probe(Vec::new())).unwrap();
    let manager = router.spawn(Cast::Manager(Manager::new(&vec![]))).unwrap();
    let v = router.spawn(variable(0)).unwrap();
    let mut ancestors = AddressSet::new();
    ancestors.insert(v);
    let d = router
        .spawn(Cast::Node(Reactive::new(ReactiveConfiguration::Definition {
            expr: Expr::Read(v),
            inputs: vec![(v, InputMetadata { ancestors })],
        })))
        .unwrap();
    let copy = router.spawn(variable(0)).unwrap();
    subscribe(&mut router, client, v, d);
    // The variable is written, so that the definition gets a value.
    router.send(client, manager, Message::Do { action: Action::Write(at(v), Expr::Value(Value::Integer(4))) });
    assert_eq!(router.run(100).refused, None);
    assert_eq!(value_of(&router, d).value, Value::Integer(4));
    // The value of the definition is copied to another variable.
    router.send(client, manager, Message::Do { action: Action::Write(at(copy), Expr::Read(at(d))) });
    assert_eq!(router.run(100).refused, None);
    assert_eq!(router.pending(), 0);
    assert_eq!(value_of(&router, copy).value, Value::Integer(4));
    assert_eq!(value_of(&router, copy).basis.latest(v), Iteration(1));
    assert_eq!(value_of(&router, copy).basis.latest(copy), Iteration(1));
    let finished = manager_of(&router, manager).finished();
    assert_eq!(finished.len(), 2);
    assert!(finished.iter().all(|(_, outcome)| *outcome == Outcome::Completed));
}

#[test]
fn an_upgrade_creates_a_variable_and_registers_it() {
    let mut router: Router<Cast> = Router::new();
    let client = router.spawn(Cast::Probe(Vec::new())).unwrap();
    let manager = router.spawn(Cast::Manager(Manager::new(&vec![]))).unwrap();
    upgrade(&mut router, client, manager, Upgrade::Var(new("a"), Expr::Value(Value::Integer(5))));
    let found = registered(&router, manager, "a");
    assert_eq!(found, vec![VersionedAddress { address: addr(2), version: Version(0) }]);
    assert_eq!(value_of(&router, found[0].address).value, Value::Integer(5));
    let finished = manager_of(&router, manager).finished();
    assert_eq!(finished.len(), 1);
    assert_eq!(finished[0].1, Outcome::Completed);
    assert_eq!(finished[0].0.priority, TxPriority::High);
    // The new variable can be written like any other.
    write(&mut router, client, manager, found[0], 6);
    assert_eq!(value_of(&router, found[0].address).value, Value::Integer(6));
}

#[test]
fn a_name_is_given_once() {
    let mut router: Router<Cast> = Router::new();
    let client = router.spawn(Cast::Probe(Vec::new())).unwrap();
    let manager = router.spawn(Cast::Manager(Manager::new(&vec![]))).unwrap();
    upgrade(&mut router, client, manager, Upgrade::Var(new("a"), Expr::Value(Value::Integer(5))));
    upgrade(&mut router, client, manager, Upgrade::Var(new("a"), Expr::Value(Value::Integer(6))));
    let finished = manager_of(&router, manager).finished();
    assert_eq!(finished.len(), 2);
    assert_eq!(finished[1].1, Outcome::Aborted);
    assert_eq!(registered(&router, manager, "a").len(), 1);
    // Nor can one upgrade give a name twice.
    let twice = Upgrade::Then(
        Box::new(Upgrade::Var(new("b"), Expr::Value(Value::Integer(1)))),
        Box::new(Upgrade::Var(new("b"), Expr::Value(Value::Integer(2)))),
    );
    upgrade(&mut router, client, manager, twice);
    assert_eq!(manager_of(&router, manager).finished()[2].1, Outcome::Aborted);
    assert!(registered(&router, manager, "b").is_empty());
}

#[test]
fn an_upgrade_creates_a_definition_over_an_existing_variable() {
    let mut router: Router<Cast> = Router::new();
    let client = router.spawn(Cast::Probe(Vec::new())).unwrap();
    let manager = router.spawn(Cast::Manager(Manager::new(&vec![]))).unwrap();
    let v = router.spawn(variable(0)).unwrap();
    upgrade(&mut router, client, manager, Upgrade::Def(new("d"), Expr::Read(Ident::Existing(at(v)))));
    let d = registered(&router, manager, "d")[0];
    match router.actor(d.address) {
        Some(Cast::Node(node)) => {
            assert_eq!(node.inputs(), vec![v]);
            assert!(node.value().is_none());
        }
        _ => panic!("no node"),
    }
    write(&mut router, client, manager, at(v), 3);
    assert_eq!(value_of(&router, d.address).value, Value::Integer(3));
    assert_eq!(value_of(&router, d.address).basis, stamp(&[(v.index, 1)]));
}

#[test]
fn an_upgrade_builds_a_pipeline_of_new_nodes() {
    let mut router: Router<Cast> = Router::new();
    let client = router.spawn(Cast::Probe(Vec::new())).unwrap();
    let manager = router.spawn(Cast::Manager(Manager::new(&vec![]))).unwrap();
    let pipeline = Upgrade::Then(
        Box::new(Upgrade::Var(new("x"), Expr::Value(Value::Integer(0)))),
        Box::new(Upgrade::Then(
            Box::new(Upgrade::Def(new("y"), Expr::Read(new("x")))),
            Box::new(Upgrade::Def(new("z"), Expr::Read(new("y")))),
        )),
    );
    upgrade(&mut router, client, manager, pipeline);
    let x = registered(&router, manager, "x")[0];
    let y = registered(&router, manager, "y")[0];
    let z = registered(&router, manager, "z")[0];
    assert_eq!((x.address, y.address, z.address), (addr(2), addr(3), addr(4)));
    write(&mut router, client, manager, x, 2);
    assert_eq!(value_of(&router, z.address).value, Value::Integer(2));
    assert_eq!(value_of(&router, z.address).basis, stamp(&[(x.address.index, 1)]));
    assert_eq!(value_of(&router, y.address).value, Value::Integer(2));
}

#[test]
fn a_definition_cannot_read_what_is_created_after_it() {
    let mut router: Router<Cast> = Router::new();
    let client = router.spawn(Cast::Probe(Vec::new())).unwrap();
    let manager = router.spawn(Cast::Manager(Manager::new(&vec![]))).unwrap();
    let backwards = Upgrade::Then(
        Box::new(Upgrade::Def(new("y"), Expr::Read(new("x")))),
        Box::new(Upgrade::Var(new("x"), Expr::Value(Value::Integer(0)))),
    );
    upgrade(&mut router, client, manager, backwards);
    assert_eq!(manager_of(&router, manager).finished()[0].1, Outcome::Aborted);
    assert!(registered(&router, manager, "x").is_empty());
    assert!(router.actor(addr(2)).is_none());
}

#[test]
fn an_upgrade_deletes_a_node() {
    let mut router: Router<Cast> = Router::new();
    let client = router.spawn(Cast::Probe(Vec::new())).unwrap();
    let manager = router.spawn(Cast::Manager(Manager::new(&vec![]))).unwrap();
    let v = router.spawn(variable(0)).unwrap();
    upgrade(&mut router, client, manager, Upgrade::Del(at(v)));
    assert!(router.actor(v).is_none());
    assert_eq!(manager_of(&router, manager).finished()[0].1, Outcome::Completed);
}

#[test]
fn an_upgrade_gives_an_existing_variable_a_new_value_and_version() {
    let mut router: Router<Cast> = Router::new();
    let client = router.spawn(Cast::Probe(Vec::new())).unwrap();
    let manager = router.spawn(Cast::Manager(Manager::new(&vec![]))).unwrap();
    let v = router.spawn(variable(0)).unwrap();
    let w = router.spawn(variable(8)).unwrap();
    // The new value is read from another variable.
    upgrade(
        &mut router,
        client,
        manager,
        Upgrade::Var(Ident::Existing(at(v)), Expr::Read(Ident::Existing(at(w)))),
    );
    assert_eq!(manager_of(&router, manager).finished()[0].1, Outcome::Completed);
    assert_eq!(value_of(&router, v).value, Value::Integer(8));
    // An action that still expects the old version is given up.
    write(&mut router, client, manager, at(v), 1);
    assert_eq!(manager_of(&router, manager).finished()[1].1, Outcome::Aborted);
    assert_eq!(value_of(&router, v).value, Value::Integer(8));
    let now = VersionedAddress { address: v, version: Version(1) };
    write(&mut router, client, manager, now, 1);
    assert_eq!(value_of(&router, v).value, Value::Integer(1));
}

#[test]
fn an_upgrade_turns_a_variable_into_a_definition() {
    let mut router: Router<Cast> = Router::new();
    let client = router.spawn(Cast::Probe(Vec::new())).unwrap();
    let manager = router.spawn(Cast::Manager(Manager::new(&vec![]))).unwrap();
    let v = router.spawn(variable(0)).unwrap();
    let w = router.spawn(variable(8)).unwrap();
    upgrade(
        &mut router,
        client,
        manager,
        Upgrade::Def(Ident::Existing(at(w)), Expr::Read(Ident::Existing(at(v)))),
    );
    assert_eq!(manager_of(&router, manager).finished()[0].1, Outcome::Completed);
    write(&mut router, client, manager, at(v), 4);
    assert_eq!(value_of(&router, w).value, Value::Integer(4));
}

#[test]
fn a_lock_request_to_a_retired_node_is_no_longer_waited_for() {
    let mut router: Router<Cast> = Router::new();
    let client = router.spawn(Cast::Probe(Vec::new())).unwrap();
    let manager = router.spawn(Cast::Manager(Manager::new(&vec![]))).unwrap();
    let v = router.spawn(variable(0)).unwrap();
    upgrade(&mut router, client, manager, Upgrade::Del(at(v)));
    assert!(router.actor(v).is_none());
    // An action on the node that is gone asks for a lock, and is told that
    // nobody is there. The router drops nothing on the way.
    let action = Action::Write(at(v), Expr::Value(Value::Integer(1)));
    router.send(client, manager, Message::Do { action });
    assert_eq!(router.run(100).refused, None);
    assert_eq!(router.pending(), 0);
    let manager = manager_of(&router, manager);
    assert_eq!(manager.under_way(), 1);
    assert_eq!(manager.finished().len(), 1);
}

#[test]
fn the_value_of_an_upgrade_that_waits_for_a_read_is_staged_later() {
    let mut manager = Manager::new(&vec![]);
    let me = addr(1);
    let v = addr(5);
    let w = addr(6);
    let mut ctx: Context<Cast> = Context::new(me, 100);
    let change = Upgrade::Var(Ident::Existing(at(v)), Expr::Read(Ident::Existing(at(w))));
    let txid = manager.start_at(TransactionKind::Upgrade(change), 7, &mut ctx).unwrap();
    let (sent, _, _) = ctx.finish();
    // The node that is changed is locked exclusively, the node that is read
    // is locked for reading.
    assert_eq!(
        sent,
        vec![
            Envelope { sender: me, target: v, message: Message::Lock { txid, kind: LockKind::Exclusive } },
            Envelope { sender: me, target: w, message: Message::Lock { txid, kind: LockKind::Shared } },
        ]
    );
    let grant = |address: Address| Message::LockGranted {
        txid,
        address,
        node_kind: NodeKind::Variable { iteration: Iteration(2) },
        version: Version(0),
    };
    let mut ctx: Context<Cast> = Context::new(me, 100);
    manager.handle(v, grant(v), &mut ctx);
    assert!(ctx.finish().0.is_empty());
    let mut ctx: Context<Cast> = Context::new(me, 100);
    manager.handle(w, grant(w), &mut ctx);
    assert_eq!(
        ctx.finish().0,
        vec![Envelope { sender: me, target: w, message: Message::Read { txid, basis: BasisStamp::empty() } }]
    );
    let mut ctx: Context<Cast> = Context::new(me, 100);
    let value = StampedValue { value: Value::Integer(8), basis: stamp(&[(6, 2)]) };
    manager.handle(w, Message::ReadResult { txid, address: w, value }, &mut ctx);
    let (sent, spawned, _) = ctx.finish();
    assert!(spawned.is_empty());
    assert_eq!(sent.len(), 3);
    assert_eq!(
        sent[0],
        Envelope {
            sender: me,
            target: v,
            message: Message::Reconfigure {
                txid,
                configuration: ReactiveConfiguration::Variable {
                    value: StampedValue { value: Value::Integer(8), basis: BasisStamp::empty() },
                },
            },
        }
    );
    // Both locks are released with the same stamp: that of what was read.
    for (envelope, target) in sent[1..].iter().zip([v, w]) {
        assert_eq!(
            envelope,
            &Envelope { sender: me, target, message: Message::Release { txid, basis: stamp(&[(6, 2)]) } }
        );
    }
    assert_eq!(manager.finished(), &vec![(txid, Outcome::Completed)]);
}
