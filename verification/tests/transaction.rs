use reactive_fabric::actor::{Address, Context, Envelope, Version, VersionedAddress};
use reactive_fabric::basis::{BasisStamp, Iteration};
use reactive_fabric::directory::Directory;
use reactive_fabric::expr::{Action, Expr, Ident, Name, Upgrade, Value};
use reactive_fabric::message::{LockKind, Message, NodeKind, StampedValue};
use reactive_fabric::reactive::Reactive;
use reactive_fabric::transaction::{Transaction, TransactionError, TransactionKind, TransactionState};
use reactive_fabric::txid::{Timestamp, TxId, TxPriority};

fn addr(index: usize) -> Address {
    Address { index }
}

fn at(address: Address) -> VersionedAddress {
    VersionedAddress { address, version: Version(0) }
}

fn txid(me: Address) -> TxId {
    TxId { priority: TxPriority::Low, timestamp: Timestamp { epoch_micros: 7 }, address: me }
}

fn stamp(entries: &[(usize, usize)]) -> BasisStamp {
    let mut basis = BasisStamp::empty();
    for (index, iteration) in entries {
        basis.add(addr(*index), Iteration(*iteration));
    }
    basis
}

fn lock(me: Address, target: Address, kind: LockKind) -> Envelope {
    Envelope { sender: me, target, message: Message::Lock { txid: txid(me), kind } }
}

fn sent_by(ctx: Context<Reactive>) -> Vec<Envelope> {
    let (sent, spawned, _) = ctx.finish();
    assert!(spawned.is_empty());
    sent
}

#[test]
fn a_transaction_begins_once_with_the_exclusive_locks_on_what_it_writes() {
    let me = addr(1);
    let (v, w) = (addr(5), addr(6));
    let action = Action::Then(
        Box::new(Action::Write(at(v), Expr::Read(at(w)))),
        Box::new(Action::Then(
            Box::new(Action::Write(at(w), Expr::Value(Value::Integer(1)))),
            Box::new(Action::Write(at(v), Expr::Value(Value::Integer(2)))),
        )),
    );
    let mut transaction = Transaction::new(txid(me), TransactionKind::Action(action));
    let mut ctx: Context<Reactive> = Context::new(me, 100);
    transaction.traverse(&mut ctx);
    // The second write of `v` finds the lock asked for.
    assert_eq!(
        sent_by(ctx),
        vec![lock(me, v, LockKind::Exclusive), lock(me, w, LockKind::Exclusive)]
    );
    let mut ctx: Context<Reactive> = Context::new(me, 100);
    transaction.traverse(&mut ctx);
    assert_eq!(sent_by(ctx), vec![]);
}

#[test]
fn an_upgrade_begins_with_what_it_changes_and_then_what_it_reads() {
    let me = addr(1);
    let (v, w, u) = (addr(5), addr(6), addr(7));
    let upgrade = Upgrade::Then(
        Box::new(Upgrade::Var(Ident::Existing(at(v)), Expr::Read(Ident::Existing(at(w))))),
        Box::new(Upgrade::Then(
            Box::new(Upgrade::Def(
                Ident::New(Name { text: "d".to_string() }),
                Expr::Tuple(vec![
                    Expr::Read(Ident::Existing(at(v))),
                    Expr::Read(Ident::New(Name { text: "e".to_string() })),
                ]),
            )),
            Box::new(Upgrade::Del(at(u))),
        )),
    );
    let mut transaction = Transaction::new(txid(me), TransactionKind::Upgrade(upgrade));
    let mut ctx: Context<Reactive> = Context::new(me, 100);
    transaction.traverse(&mut ctx);
    // `v` is changed and read: the exclusive lock is asked for, once.
    assert_eq!(
        sent_by(ctx),
        vec![
            lock(me, v, LockKind::Exclusive),
            lock(me, u, LockKind::Exclusive),
            lock(me, w, LockKind::Shared),
        ]
    );
}

#[test]
fn a_pass_writes_what_it_can_and_asks_for_what_it_needs() {
    let me = addr(1);
    let (v, w) = (addr(5), addr(6));
    let action = Action::Then(
        Box::new(Action::Write(at(v), Expr::Value(Value::Integer(4)))),
        Box::new(Action::Write(at(v), Expr::Read(at(w)))),
    );
    let mut transaction = Transaction::new(txid(me), TransactionKind::Action(action));
    let mut ctx: Context<Reactive> = Context::new(me, 100);
    transaction.traverse(&mut ctx);
    transaction.advance(&mut ctx);
    transaction.ask(&mut ctx);
    // Without the lock nothing is written; the value of `w` is wanted.
    assert_eq!(
        sent_by(ctx),
        vec![lock(me, v, LockKind::Exclusive), lock(me, w, LockKind::Shared)]
    );
    transaction.lock_granted(v, Version(0), NodeKind::Variable { iteration: Iteration(2) }).unwrap();
    let mut ctx: Context<Reactive> = Context::new(me, 100);
    transaction.advance(&mut ctx);
    transaction.ask(&mut ctx);
    assert_eq!(
        sent_by(ctx),
        vec![Envelope {
            sender: me,
            target: v,
            message: Message::Write { txid: txid(me), value: Value::Integer(4) },
        }]
    );
    transaction.lock_granted(w, Version(0), NodeKind::Variable { iteration: Iteration(3) }).unwrap();
    let mut ctx: Context<Reactive> = Context::new(me, 100);
    transaction.advance(&mut ctx);
    transaction.ask(&mut ctx);
    transaction.ask(&mut ctx);
    // The value is asked for once. A variable derives from no other node,
    // so any value of it will do.
    assert_eq!(
        sent_by(ctx),
        vec![Envelope {
            sender: me,
            target: w,
            message: Message::Read { txid: txid(me), basis: BasisStamp::empty() },
        }]
    );
    transaction
        .read_result(w, StampedValue { value: Value::Integer(9), basis: stamp(&[(6, 3)]) })
        .unwrap();
    let mut ctx: Context<Reactive> = Context::new(me, 100);
    transaction.advance(&mut ctx);
    transaction.commit_action(&mut ctx);
    // The commit basis: what was read, and the next iteration of what was written.
    let basis = stamp(&[(5, 3), (6, 3)]);
    let sent = sent_by(ctx);
    assert_eq!(sent.len(), 3);
    assert_eq!(
        sent[0],
        Envelope {
            sender: me,
            target: v,
            message: Message::Write { txid: txid(me), value: Value::Integer(9) },
        }
    );
    for (envelope, target) in sent[1..].iter().zip([v, w]) {
        assert_eq!(envelope.sender, me);
        assert_eq!(envelope.target, target);
        match &envelope.message {
            Message::Release { txid: holder, basis: carried } => {
                assert_eq!(*holder, txid(me));
                assert_eq!(carried.latest(v), basis.latest(v));
                assert_eq!(carried.latest(w), basis.latest(w));
                assert_eq!(carried.latest(addr(8)), Iteration(0));
            }
            other => panic!("unexpected message {:?}", other),
        }
    }
}

#[test]
fn one_pass_is_the_three_steps_in_turn() {
    let me = addr(1);
    let v = addr(5);
    let action = || Action::Write(at(v), Expr::Value(Value::Integer(4)));
    let mut stepped = Transaction::new(txid(me), TransactionKind::Action(action()));
    let mut whole = Transaction::new(txid(me), TransactionKind::Action(action()));
    let mut directory = Directory::new(&vec![]);
    let mut ctx: Context<Reactive> = Context::new(me, 100);
    stepped.traverse(&mut ctx);
    stepped.advance(&mut ctx);
    stepped.ask(&mut ctx);
    let steps = sent_by(ctx);
    let mut ctx: Context<Reactive> = Context::new(me, 100);
    assert_eq!(whole.eval(&mut directory, &mut ctx), Ok(false));
    assert_eq!(sent_by(ctx), steps);
    assert_eq!(stepped, whole);
    for transaction in [&mut stepped, &mut whole] {
        transaction.lock_granted(v, Version(0), NodeKind::Variable { iteration: Iteration(0) }).unwrap();
    }
    let mut ctx: Context<Reactive> = Context::new(me, 100);
    stepped.traverse(&mut ctx);
    stepped.advance(&mut ctx);
    stepped.commit_action(&mut ctx);
    let steps = sent_by(ctx);
    assert_eq!(steps.len(), 2);
    let mut ctx: Context<Reactive> = Context::new(me, 100);
    assert_eq!(whole.eval(&mut directory, &mut ctx), Ok(true));
    assert_eq!(sent_by(ctx), steps);
    assert_eq!(stepped, whole);
}

#[test]
fn an_upgrade_commits_only_when_it_waits_for_no_lock() {
    let me = addr(1);
    let v = addr(5);
    let upgrade = Upgrade::Del(at(v));
    let mut transaction = Transaction::new(txid(me), TransactionKind::Upgrade(upgrade));
    let mut directory = Directory::new(&vec![]);
    let mut ctx: Context<Reactive> = Context::new(me, 100);
    assert_eq!(transaction.eval(&mut directory, &mut ctx), Ok(false));
    assert_eq!(sent_by(ctx), vec![lock(me, v, LockKind::Exclusive)]);
    let mut ctx: Context<Reactive> = Context::new(me, 100);
    assert_eq!(transaction.commit_upgrade(&mut directory, &mut ctx), Ok(false));
    assert_eq!(sent_by(ctx), vec![]);
    transaction.lock_granted(v, Version(0), NodeKind::Variable { iteration: Iteration(2) }).unwrap();
    let mut ctx: Context<Reactive> = Context::new(me, 100);
    assert_eq!(transaction.eval(&mut directory, &mut ctx), Ok(true));
    assert_eq!(
        sent_by(ctx),
        vec![
            Envelope { sender: me, target: v, message: Message::Retire { txid: txid(me) } },
            Envelope {
                sender: me,
                target: v,
                message: Message::Release { txid: txid(me), basis: BasisStamp::empty() },
            },
        ]
    );
}

#[test]
fn a_failed_transaction_releases_with_the_empty_stamp() {
    let me = addr(1);
    let (v, w) = (addr(5), addr(6));
    let action = Action::Write(at(v), Expr::Read(at(w)));
    let mut transaction = Transaction::new(txid(me), TransactionKind::Action(action));
    let mut ctx: Context<Reactive> = Context::new(me, 100);
    transaction.traverse(&mut ctx);
    transaction.ask(&mut ctx);
    transaction.lock_granted(w, Version(0), NodeKind::Variable { iteration: Iteration(3) }).unwrap();
    assert_eq!(
        transaction.lock_granted(v, Version(1), NodeKind::Variable { iteration: Iteration(0) }),
        Err(TransactionError::VersionMismatch { address: v, expected: Version(0), granted: Version(1) })
    );
    let mut ctx: Context<Reactive> = Context::new(me, 100);
    transaction.fail(&mut ctx);
    assert_eq!(
        sent_by(ctx),
        vec![Envelope {
            sender: me,
            target: w,
            message: Message::Release { txid: txid(me), basis: BasisStamp::empty() },
        }]
    );
}

#[test]
fn locks_are_asked_for_once_and_in_order() {
    let me = addr(1);
    let mut state = TransactionState::new(txid(me));
    let mut ctx: Context<Reactive> = Context::new(me, 100);
    state.note_writes(&vec![at(addr(6)), at(addr(8))]);
    state.lock_granted(addr(9), Version(0), NodeKind::Variable { iteration: Iteration(0) }).unwrap_err();
    state.request_each(
        &vec![at(addr(5)), at(addr(6)), at(addr(5)), at(addr(7))],
        LockKind::Shared,
        &mut ctx,
    );
    state.request_each(&vec![at(addr(7)), at(addr(8))], LockKind::Exclusive, &mut ctx);
    assert_eq!(
        sent_by(ctx),
        vec![
            lock(me, addr(5), LockKind::Shared),
            lock(me, addr(6), LockKind::Exclusive),
            lock(me, addr(7), LockKind::Shared),
            lock(me, addr(8), LockKind::Exclusive),
        ]
    );
}

#[test]
fn values_are_asked_for_in_order() {
    let me = addr(1);
    let mut state = TransactionState::new(txid(me));
    let mut ctx: Context<Reactive> = Context::new(me, 100);
    state.request_each(&vec![at(addr(5))], LockKind::Shared, &mut ctx);
    state.lock_granted(addr(5), Version(0), NodeKind::Variable { iteration: Iteration(2) }).unwrap();
    let mut ctx: Context<Reactive> = Context::new(me, 100);
    state.want_reads(&vec![at(addr(6)), at(addr(5)), at(addr(6)), at(addr(5))], &mut ctx);
    assert_eq!(
        sent_by(ctx),
        vec![
            lock(me, addr(6), LockKind::Shared),
            Envelope {
                sender: me,
                target: addr(5),
                message: Message::Read { txid: txid(me), basis: BasisStamp::empty() },
            },
        ]
    );
}
