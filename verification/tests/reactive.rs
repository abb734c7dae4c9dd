use reactive_fabric::actor::{Address, Context, Envelope, Version};
use reactive_fabric::address_map::{AddressMap, AddressSet};
use reactive_fabric::basis::{BasisStamp, Iteration};
use reactive_fabric::expr::{Expr, Value};
use reactive_fabric::message::{
    InputMetadata, LockKind, Message, NodeKind, ReactiveConfiguration, StampedValue, Violation,
};
use reactive_fabric::reactive::Reactive;
use reactive_fabric::txid::{Timestamp, TxId, TxPriority};

const NODE: Address = Address { index: 1 };
const CLIENT: Address = Address { index: 50 };

fn addr(index: usize) -> Address {
    Address { index }
}

fn tx(priority: TxPriority, micros: u64) -> TxId {
    TxId {
        priority,
        timestamp: Timestamp { epoch_micros: micros },
        address: Address { index: 100 + micros as usize },
    }
}

fn stamp(entries: &[(usize, usize)]) -> BasisStamp {
    let mut basis = BasisStamp::empty();
    for (index, iteration) in entries {
        basis.add(addr(*index), Iteration(*iteration));
    }
    basis
}

fn variable(value: isize) -> Reactive {
    Reactive::new(ReactiveConfiguration::Variable {
        value: StampedValue { value: Value::Integer(value), basis: BasisStamp::empty() },
    })
}

fn definition_over(input: usize, root: usize) -> Reactive {
    let mut ancestors = AddressSet::new();
    ancestors.insert(addr(root));
    Reactive::new(ReactiveConfiguration::Definition {
        expr: Expr::Read(addr(input)),
        inputs: vec![(addr(input), InputMetadata { ancestors })],
    })
}

/// Lets `node`, which lives at `me`, handle `message`, and returns what it
/// sent and whether it retired.
fn deliver(
    node: &mut Reactive,
    me: Address,
    sender: Address,
    message: Message,
) -> Result<(Vec<Envelope>, bool), Violation> {
    if let Some(violation) = node.check(&message) {
        return Err(violation);
    }
    let mut ctx: Context<Reactive> = Context::new(me, 1000);
    node.handle(sender, message, &mut ctx);
    let (sent, spawned, retired) = ctx.finish();
    assert!(spawned.is_empty());
    Ok((sent, retired))
}

fn lock(node: &mut Reactive, txid: TxId, kind: LockKind) -> Vec<Envelope> {
    deliver(node, NODE, txid.address, Message::Lock { txid, kind }).unwrap().0
}

fn subscribe(node: &mut Reactive, txid: TxId, subscriber: Address) {
    let sent = lock(node, txid, LockKind::Shared);
    assert_eq!(sent.len(), 1);
    let mut changes = AddressMap::new();
    changes.insert(subscriber, true);
    deliver(node, NODE, txid.address, Message::UpdateSubscriptions { txid, changes }).unwrap();
    deliver(node, NODE, txid.address, Message::Release { txid, basis: BasisStamp::empty() })
        .unwrap();
}

#[test]
fn a_new_variable_has_its_first_value() {
    let node = variable(0);
    assert_eq!(node.value().unwrap().value, Value::Integer(0));
    assert!(node.inputs().is_empty());
}

#[test]
fn a_new_definition_has_no_value() {
    let node = definition_over(1, 1);
    assert!(node.value().is_none());
    assert_eq!(node.inputs(), vec![addr(1)]);
}

#[test]
fn a_lock_grant_tells_the_kind_and_version_of_the_node() {
    let mut node = variable(0);
    let t1 = tx(TxPriority::High, 1);
    let sent = lock(&mut node, t1, LockKind::Exclusive);
    assert_eq!(
        sent,
        vec![Envelope {
            sender: NODE,
            target: t1.address,
            message: Message::LockGranted {
                txid: t1,
                address: NODE,
                node_kind: NodeKind::Variable { iteration: Iteration(0) },
                version: Version(0),
            },
        }]
    );
    let mut definition = definition_over(5, 9);
    let sent = lock(&mut definition, t1, LockKind::Shared);
    match &sent[0].message {
        Message::LockGranted { node_kind: NodeKind::Definition { ancestors }, .. } => {
            assert_eq!(ancestors.len(), 1);
            assert!(ancestors.contains(addr(9)));
        }
        other => panic!("unexpected message {:?}", other),
    }
}

#[test]
fn single_variable_round_trip() {
    let mut node = variable(0);
    subscribe(&mut node, tx(TxPriority::Low, 1), CLIENT);
    let t1 = tx(TxPriority::High, 2);
    assert_eq!(lock(&mut node, t1, LockKind::Exclusive).len(), 1);
    let (sent, _) =
        deliver(&mut node, NODE, t1.address, Message::Write { txid: t1, value: Value::Integer(2) })
            .unwrap();
    assert!(sent.is_empty());
    // Nothing is published before the commit.
    assert_eq!(node.value().unwrap().value, Value::Integer(0));
    let (sent, retired) = deliver(
        &mut node,
        NODE,
        t1.address,
        Message::Release { txid: t1, basis: stamp(&[(1, 1)]) },
    )
    .unwrap();
    assert!(!retired);
    assert_eq!(
        sent,
        vec![Envelope {
            sender: NODE,
            target: CLIENT,
            message: Message::Propagate {
                sender: NODE,
                value: StampedValue { value: Value::Integer(2), basis: stamp(&[(1, 1)]) },
            },
        }]
    );
    assert_eq!(node.value().unwrap().value, Value::Integer(2));
    assert_eq!(node.value().unwrap().basis.latest(NODE), Iteration(1));
}

#[test]
fn the_iteration_catches_up_with_the_published_stamp() {
    let mut node = variable(0);
    let t1 = tx(TxPriority::Low, 1);
    lock(&mut node, t1, LockKind::Exclusive);
    deliver(&mut node, NODE, t1.address, Message::Write { txid: t1, value: Value::Integer(1) })
        .unwrap();
    deliver(&mut node, NODE, t1.address, Message::Release { txid: t1, basis: stamp(&[(1, 3)]) })
        .unwrap();
    let t2 = tx(TxPriority::Low, 2);
    let sent = lock(&mut node, t2, LockKind::Shared);
    match &sent[0].message {
        Message::LockGranted { node_kind, .. } => {
            assert_eq!(*node_kind, NodeKind::Variable { iteration: Iteration(3) });
        }
        other => panic!("unexpected message {:?}", other),
    }
}

#[test]
fn a_read_of_a_variable_is_answered_at_once() {
    let mut node = variable(7);
    let t1 = tx(TxPriority::Low, 1);
    lock(&mut node, t1, LockKind::Shared);
    let (sent, _) =
        deliver(&mut node, NODE, t1.address, Message::Read { txid: t1, basis: stamp(&[(3, 4)]) })
            .unwrap();
    assert_eq!(
        sent,
        vec![Envelope {
            sender: NODE,
            target: t1.address,
            message: Message::ReadResult {
                txid: t1,
                address: NODE,
                value: StampedValue { value: Value::Integer(7), basis: BasisStamp::empty() },
            },
        }]
    );
}

#[test]
fn the_stamp_of_a_committed_read_goes_into_the_next_value() {
    let mut node = variable(7);
    let reader = tx(TxPriority::Low, 1);
    lock(&mut node, reader, LockKind::Shared);
    deliver(&mut node, NODE, reader.address, Message::Read { txid: reader, basis: stamp(&[]) })
        .unwrap();
    deliver(
        &mut node,
        NODE,
        reader.address,
        Message::Release { txid: reader, basis: stamp(&[(8, 5)]) },
    )
    .unwrap();
    let writer = tx(TxPriority::Low, 2);
    lock(&mut node, writer, LockKind::Exclusive);
    deliver(&mut node, NODE, writer.address, Message::Write { txid: writer, value: Value::Integer(1) })
        .unwrap();
    deliver(
        &mut node,
        NODE,
        writer.address,
        Message::Release { txid: writer, basis: stamp(&[(1, 1)]) },
    )
    .unwrap();
    let value = node.value().unwrap();
    assert_eq!(value.basis.latest(addr(1)), Iteration(1));
    assert_eq!(value.basis.latest(addr(8)), Iteration(5));
}

#[test]
fn a_read_of_a_definition_waits_for_its_value() {
    let mut node = definition_over(5, 9);
    let t1 = tx(TxPriority::Low, 1);
    lock(&mut node, t1, LockKind::Shared);
    let (sent, _) =
        deliver(&mut node, NODE, t1.address, Message::Read { txid: t1, basis: stamp(&[(9, 2)]) })
            .unwrap();
    assert!(sent.is_empty());
    // A value that is behind what the read asks for does not answer it.
    let behind = StampedValue { value: Value::Integer(1), basis: stamp(&[(9, 1)]) };
    let (sent, _) =
        deliver(&mut node, NODE, addr(5), Message::Propagate { sender: addr(5), value: behind })
            .unwrap();
    assert!(sent.is_empty());
    let enough = StampedValue { value: Value::Integer(2), basis: stamp(&[(9, 2)]) };
    let (sent, _) =
        deliver(&mut node, NODE, addr(5), Message::Propagate { sender: addr(5), value: enough })
            .unwrap();
    assert_eq!(
        sent,
        vec![Envelope {
            sender: NODE,
            target: t1.address,
            message: Message::ReadResult {
                txid: t1,
                address: NODE,
                value: StampedValue { value: Value::Integer(2), basis: stamp(&[(9, 2)]) },
            },
        }]
    );
    // The read is complete: the next value is not sent to the reader again.
    let more = StampedValue { value: Value::Integer(3), basis: stamp(&[(9, 3)]) };
    let (sent, _) =
        deliver(&mut node, NODE, addr(5), Message::Propagate { sender: addr(5), value: more })
            .unwrap();
    assert!(sent.is_empty());
}

#[test]
fn a_definition_propagates_what_its_input_propagates() {
    let mut node = definition_over(5, 5);
    subscribe(&mut node, tx(TxPriority::Low, 1), CLIENT);
    let value = StampedValue { value: Value::Integer(2), basis: stamp(&[(5, 1)]) };
    let (sent, _) =
        deliver(&mut node, NODE, addr(5), Message::Propagate { sender: addr(5), value }).unwrap();
    assert_eq!(
        sent,
        vec![Envelope {
            sender: NODE,
            target: CLIENT,
            message: Message::Propagate {
                sender: NODE,
                value: StampedValue { value: Value::Integer(2), basis: stamp(&[(5, 1)]) },
            },
        }]
    );
}

#[test]
fn wound_wait_on_a_node() {
    let mut node = variable(0);
    let old = tx(TxPriority::Low, 1);
    let young = tx(TxPriority::Low, 2);
    let sent = lock(&mut node, young, LockKind::Exclusive);
    assert!(matches!(sent[0].message, Message::LockGranted { txid, .. } if txid == young));
    let sent = lock(&mut node, old, LockKind::Exclusive);
    assert_eq!(
        sent,
        vec![Envelope {
            sender: NODE,
            target: young.address,
            message: Message::Preempt { txid: young },
        }]
    );
    // Another request does not wound the holder again.
    let sent = lock(&mut node, tx(TxPriority::Low, 3), LockKind::Shared);
    assert!(sent.is_empty());
    let (sent, _) =
        deliver(&mut node, NODE, young.address, Message::Abort { txid: young }).unwrap();
    assert_eq!(sent.len(), 1);
    assert_eq!(sent[0].target, old.address);
    assert!(matches!(sent[0].message, Message::LockGranted { txid, .. } if txid == old));
}

#[test]
fn a_schema_change_wounds_a_data_transaction() {
    let mut node = variable(0);
    let data = tx(TxPriority::Low, 1);
    let schema = tx(TxPriority::High, 9);
    lock(&mut node, data, LockKind::Shared);
    let sent = lock(&mut node, schema, LockKind::Exclusive);
    assert_eq!(sent.len(), 1);
    assert_eq!(sent[0].message, Message::Preempt { txid: data });
}

#[test]
fn protocol_violations_are_refused() {
    let mut node = variable(0);
    let t1 = tx(TxPriority::Low, 1);
    let t2 = tx(TxPriority::Low, 2);
    let refused = |node: &mut Reactive, message: Message| {
        deliver(node, NODE, t2.address, message).unwrap_err()
    };
    assert_eq!(refused(&mut node, Message::Abort { txid: t1 }), Violation::AbortUnheld);
    assert_eq!(
        refused(&mut node, Message::Release { txid: t1, basis: stamp(&[]) }),
        Violation::ReleaseUnheld
    );
    assert_eq!(
        refused(&mut node, Message::Read { txid: t1, basis: stamp(&[]) }),
        Violation::NoSharedLock
    );
    assert_eq!(
        refused(&mut node, Message::UpdateSubscriptions { txid: t1, changes: AddressMap::new() }),
        Violation::NoSharedLock
    );
    assert_eq!(
        refused(&mut node, Message::Write { txid: t1, value: Value::Integer(1) }),
        Violation::NoExclusiveLock
    );
    assert_eq!(refused(&mut node, Message::Retire { txid: t1 }), Violation::NoExclusiveLock);
    assert_eq!(
        refused(
            &mut node,
            Message::Reconfigure {
                txid: t1,
                configuration: ReactiveConfiguration::Variable {
                    value: StampedValue { value: Value::Integer(1), basis: stamp(&[]) },
                },
            }
        ),
        Violation::NoExclusiveLock
    );
    let value = StampedValue { value: Value::Integer(1), basis: stamp(&[]) };
    assert_eq!(
        refused(&mut node, Message::Propagate { sender: addr(3), value }),
        Violation::PropagateToVariable
    );
    assert_eq!(refused(&mut node, Message::Preempt { txid: t1 }), Violation::Unexpected);
    lock(&mut node, t1, LockKind::Shared);
    // A shared lock is not the exclusive lock.
    assert_eq!(
        refused(&mut node, Message::Write { txid: t1, value: Value::Integer(1) }),
        Violation::NoExclusiveLock
    );
    let blocked = tx(TxPriority::Low, 3);
    lock(&mut node, blocked, LockKind::Exclusive);
    assert_eq!(
        refused(&mut node, Message::Lock { txid: blocked, kind: LockKind::Shared }),
        Violation::DoubleLock
    );
}

#[test]
fn a_write_is_refused_on_a_definition_and_after_retire() {
    let t1 = tx(TxPriority::High, 1);
    let mut definition = definition_over(5, 5);
    lock(&mut definition, t1, LockKind::Exclusive);
    assert_eq!(
        deliver(
            &mut definition,
            NODE,
            t1.address,
            Message::Write { txid: t1, value: Value::Integer(1) }
        )
        .unwrap_err(),
        Violation::WriteToDefinition
    );
    let mut node = variable(0);
    lock(&mut node, t1, LockKind::Exclusive);
    deliver(&mut node, NODE, t1.address, Message::Retire { txid: t1 }).unwrap();
    assert_eq!(
        deliver(&mut node, NODE, t1.address, Message::Write { txid: t1, value: Value::Integer(1) })
            .unwrap_err(),
        Violation::AfterRetire
    );
    assert_eq!(
        deliver(
            &mut node,
            NODE,
            t1.address,
            Message::Reconfigure {
                txid: t1,
                configuration: ReactiveConfiguration::Variable {
                    value: StampedValue { value: Value::Integer(1), basis: stamp(&[]) },
                },
            }
        )
        .unwrap_err(),
        Violation::AfterRetire
    );
}

#[test]
fn a_retired_node_says_so_and_grants_nothing_more() {
    let mut node = variable(0);
    let t1 = tx(TxPriority::High, 1);
    let t2 = tx(TxPriority::Low, 2);
    lock(&mut node, t1, LockKind::Exclusive);
    lock(&mut node, t2, LockKind::Shared);
    deliver(&mut node, NODE, t1.address, Message::Retire { txid: t1 }).unwrap();
    let (sent, retired) =
        deliver(&mut node, NODE, t1.address, Message::Release { txid: t1, basis: stamp(&[]) })
            .unwrap();
    assert!(retired);
    assert!(sent.is_empty());
}

#[test]
fn a_reconfigure_after_a_write_is_refused() {
    let mut node = variable(0);
    subscribe(&mut node, tx(TxPriority::Low, 1), CLIENT);
    let t1 = tx(TxPriority::High, 2);
    lock(&mut node, t1, LockKind::Exclusive);
    deliver(&mut node, NODE, t1.address, Message::Write { txid: t1, value: Value::Integer(2) })
        .unwrap();
    let configuration = ReactiveConfiguration::Variable {
        value: StampedValue { value: Value::Integer(9), basis: stamp(&[(1, 4)]) },
    };
    // The written value would be lost: the node refuses.
    assert_eq!(
        deliver(&mut node, NODE, t1.address, Message::Reconfigure { txid: t1, configuration })
            .unwrap_err(),
        Violation::ReconfigureAfterWrite
    );
    let (sent, _) =
        deliver(&mut node, NODE, t1.address, Message::Release { txid: t1, basis: stamp(&[(1, 1)]) })
            .unwrap();
    // The write is what the commit applies, at the version that the node had.
    assert_eq!(sent.len(), 1);
    assert_eq!(
        sent[0].message,
        Message::Propagate {
            sender: NODE,
            value: StampedValue { value: Value::Integer(2), basis: stamp(&[(1, 1)]) },
        }
    );
    let sent = lock(&mut node, tx(TxPriority::Low, 3), LockKind::Shared);
    assert!(matches!(sent[0].message, Message::LockGranted { version: Version(0), .. }));
}

#[test]
fn a_write_after_a_reconfigure_goes_into_the_new_configuration() {
    let mut node = variable(0);
    let t1 = tx(TxPriority::High, 2);
    lock(&mut node, t1, LockKind::Exclusive);
    let configuration = ReactiveConfiguration::Variable {
        value: StampedValue { value: Value::Integer(9), basis: stamp(&[(1, 4)]) },
    };
    deliver(&mut node, NODE, t1.address, Message::Reconfigure { txid: t1, configuration }).unwrap();
    deliver(&mut node, NODE, t1.address, Message::Write { txid: t1, value: Value::Integer(2) })
        .unwrap();
    deliver(&mut node, NODE, t1.address, Message::Release { txid: t1, basis: stamp(&[(1, 1)]) })
        .unwrap();
    assert_eq!(node.value().unwrap().value, Value::Integer(2));
    assert_eq!(node.value().unwrap().basis.latest(NODE), Iteration(4));
}

#[test]
fn a_variable_can_become_a_definition() {
    let mut node = variable(0);
    let t1 = tx(TxPriority::High, 1);
    lock(&mut node, t1, LockKind::Exclusive);
    let mut ancestors = AddressSet::new();
    ancestors.insert(addr(5));
    let configuration = ReactiveConfiguration::Definition {
        expr: Expr::Read(addr(5)),
        inputs: vec![(addr(5), InputMetadata { ancestors })],
    };
    deliver(&mut node, NODE, t1.address, Message::Reconfigure { txid: t1, configuration }).unwrap();
    deliver(&mut node, NODE, t1.address, Message::Release { txid: t1, basis: stamp(&[]) }).unwrap();
    assert_eq!(node.inputs(), vec![addr(5)]);
    let value = StampedValue { value: Value::Integer(3), basis: stamp(&[(5, 1)]) };
    deliver(&mut node, NODE, addr(5), Message::Propagate { sender: addr(5), value }).unwrap();
    assert_eq!(node.value().unwrap().value, Value::Integer(3));
}

#[test]
fn an_unreachable_subscriber_is_dropped() {
    let mut node = variable(0);
    subscribe(&mut node, tx(TxPriority::Low, 1), CLIENT);
    let undelivered = Message::Propagate {
        sender: NODE,
        value: StampedValue { value: Value::Integer(0), basis: stamp(&[]) },
    };
    let (sent, _) = deliver(
        &mut node,
        NODE,
        CLIENT,
        Message::Unreachable { message: Box::new(undelivered) },
    )
    .unwrap();
    assert!(sent.is_empty());
    let t1 = tx(TxPriority::High, 2);
    lock(&mut node, t1, LockKind::Exclusive);
    deliver(&mut node, NODE, t1.address, Message::Write { txid: t1, value: Value::Integer(2) })
        .unwrap();
    let (sent, _) =
        deliver(&mut node, NODE, t1.address, Message::Release { txid: t1, basis: stamp(&[(1, 1)]) })
            .unwrap();
    assert!(sent.is_empty());
}

#[test]
fn unsubscribing_stops_the_propagation() {
    let mut node = variable(0);
    subscribe(&mut node, tx(TxPriority::Low, 1), CLIENT);
    let t2 = tx(TxPriority::Low, 2);
    lock(&mut node, t2, LockKind::Shared);
    let mut changes = AddressMap::new();
    changes.insert(CLIENT, false);
    changes.insert(addr(51), true);
    deliver(&mut node, NODE, t2.address, Message::UpdateSubscriptions { txid: t2, changes }).unwrap();
    deliver(&mut node, NODE, t2.address, Message::Release { txid: t2, basis: stamp(&[]) }).unwrap();
    let t3 = tx(TxPriority::Low, 3);
    lock(&mut node, t3, LockKind::Exclusive);
    deliver(&mut node, NODE, t3.address, Message::Write { txid: t3, value: Value::Integer(2) })
        .unwrap();
    let (sent, _) =
        deliver(&mut node, NODE, t3.address, Message::Release { txid: t3, basis: stamp(&[(1, 1)]) })
            .unwrap();
    assert_eq!(sent.len(), 1);
    assert_eq!(sent[0].target, addr(51));
}

#[test]
fn an_aborted_transaction_leaves_no_trace() {
    let mut node = variable(0);
    subscribe(&mut node, tx(TxPriority::Low, 1), CLIENT);
    let t2 = tx(TxPriority::Low, 2);
    lock(&mut node, t2, LockKind::Exclusive);
    deliver(&mut node, NODE, t2.address, Message::Write { txid: t2, value: Value::Integer(5) })
        .unwrap();
    let (sent, _) = deliver(&mut node, NODE, t2.address, Message::Abort { txid: t2 }).unwrap();
    assert!(sent.is_empty());
    assert_eq!(node.value().unwrap().value, Value::Integer(0));
}

#[test]
fn a_variable_reports_each_value_once() {
    let first = StampedValue { value: Value::Integer(0), basis: BasisStamp::empty() };
    let mut node = variable(0);
    assert_eq!(node.next_value(), Some(first.clone()));
    assert_eq!(node.next_value(), None);
    assert_eq!(node.value(), Some(&first));
    let mut ctx: Context<Reactive> = Context::new(NODE, 1000);
    node.write(StampedValue { value: Value::Integer(4), basis: stamp(&[(1, 1)]) }, &mut ctx);
    let written = StampedValue { value: Value::Integer(4), basis: stamp(&[(1, 1)]) };
    assert_eq!(node.next_value(), Some(written.clone()));
    assert_eq!(node.next_value(), None);
    assert_eq!(node.value(), Some(&written));
    let configuration = ReactiveConfiguration::Variable {
        value: StampedValue { value: Value::Integer(9), basis: BasisStamp::empty() },
    };
    node.reconfigure(configuration, &mut ctx);
    assert_eq!(
        node.next_value(),
        Some(StampedValue { value: Value::Integer(9), basis: BasisStamp::empty() })
    );
    assert_eq!(node.next_value(), None);
}

#[test]
fn a_definition_keeps_the_value_that_its_next_batch_gives() {
    let mut node = definition_over(7, 7);
    assert_eq!(node.next_value(), None);
    assert_eq!(node.value(), None);
    node.add_update(addr(7), StampedValue { value: Value::Integer(2), basis: stamp(&[(7, 1)]) });
    let given = StampedValue { value: Value::Integer(2), basis: stamp(&[(7, 1)]) };
    assert_eq!(node.next_value(), Some(given.clone()));
    assert_eq!(node.value(), Some(&given));
    assert_eq!(node.next_value(), None);
    assert_eq!(node.value(), Some(&given));
}
