use reactive_fabric::actor::Address;
use reactive_fabric::lock::{Lock, LockEvent};
use reactive_fabric::message::{BasisStamp, LockKind, Message, Violation};
use reactive_fabric::reactive::held_locks::{ExclusiveLockState, HeldLocks};
use reactive_fabric::txid::{Timestamp, TxId, TxPriority};

fn tx(micros: u64) -> TxId {
    TxId {
        priority: TxPriority::Low,
        timestamp: Timestamp { epoch_micros: micros },
        address: Address { index: 100 + micros as usize },
    }
}

fn request(lock: &mut Lock, txid: TxId, kind: LockKind) {
    assert_eq!(lock.accept(Message::Lock { txid, kind }), LockEvent::Queued { txid, kind });
}

#[test]
fn a_request_is_queued_once() {
    let mut lock = Lock::new();
    assert!(!lock.is_queued(&tx(1)));
    assert!(lock.can_take(&Message::Lock { txid: tx(1), kind: LockKind::Shared }));
    request(&mut lock, tx(1), LockKind::Shared);
    assert!(lock.is_queued(&tx(1)));
    assert!(!lock.can_take(&Message::Lock { txid: tx(1), kind: LockKind::Exclusive }));
    assert!(lock.can_take(&Message::Lock { txid: tx(2), kind: LockKind::Exclusive }));
}

#[test]
fn the_first_request_is_granted_when_nothing_is_held() {
    let mut lock = Lock::new();
    request(&mut lock, tx(5), LockKind::Exclusive);
    request(&mut lock, tx(3), LockKind::Exclusive);
    let out = lock.process_queue();
    assert_eq!(out.granted, vec![tx(3)]);
    assert!(out.preempted.is_empty());
    assert!(lock.exclusive_lock(&tx(3)).is_some());
    assert!(lock.exclusive_lock(&tx(5)).is_none());
    assert!(lock.shared_lock(&tx(3)).is_some());
}

#[test]
fn shared_requests_are_granted_up_to_the_first_exclusive_one() {
    let mut lock = Lock::new();
    request(&mut lock, tx(1), LockKind::Shared);
    request(&mut lock, tx(2), LockKind::Shared);
    request(&mut lock, tx(3), LockKind::Exclusive);
    request(&mut lock, tx(4), LockKind::Shared);
    let out = lock.process_queue();
    assert_eq!(out.granted, vec![tx(1), tx(2)]);
    assert!(out.preempted.is_empty());
    assert_eq!(lock.holder_count(), 2);
    assert!(lock.shared_lock(&tx(4)).is_none());
}

#[test]
fn an_older_exclusive_request_wounds_the_younger_shared_holders() {
    let mut lock = Lock::new();
    request(&mut lock, tx(1), LockKind::Shared);
    request(&mut lock, tx(5), LockKind::Shared);
    request(&mut lock, tx(7), LockKind::Shared);
    let out = lock.process_queue();
    assert_eq!(out.granted, vec![tx(1), tx(5), tx(7)]);
    request(&mut lock, tx(4), LockKind::Exclusive);
    let out = lock.process_queue();
    assert!(out.granted.is_empty());
    assert_eq!(out.preempted, vec![tx(7), tx(5)]);
    assert!(!lock.shared_lock(&tx(1)).unwrap().preempting);
    assert!(lock.shared_lock(&tx(5)).unwrap().preempting);
    assert!(lock.shared_lock(&tx(7)).unwrap().preempting);
}

#[test]
fn a_holder_is_asked_to_give_up_its_lock_once_only() {
    let mut lock = Lock::new();
    request(&mut lock, tx(9), LockKind::Exclusive);
    assert_eq!(lock.process_queue().granted, vec![tx(9)]);
    request(&mut lock, tx(2), LockKind::Exclusive);
    assert_eq!(lock.process_queue().preempted, vec![tx(9)]);
    request(&mut lock, tx(1), LockKind::Shared);
    let out = lock.process_queue();
    assert!(out.preempted.is_empty());
    assert!(out.granted.is_empty());
}

#[test]
fn a_younger_request_does_not_wound_an_older_exclusive_holder() {
    let mut lock = Lock::new();
    request(&mut lock, tx(1), LockKind::Exclusive);
    assert_eq!(lock.process_queue().granted, vec![tx(1)]);
    request(&mut lock, tx(2), LockKind::Exclusive);
    let out = lock.process_queue();
    assert!(out.granted.is_empty());
    assert!(out.preempted.is_empty());
}

#[test]
fn old_waits_for_young_and_young_is_wounded_once() {
    // The young transaction arrives first and is granted the exclusive lock.
    let old = tx(1);
    let young = tx(2);
    let mut lock = Lock::new();
    request(&mut lock, young, LockKind::Exclusive);
    let out = lock.process_queue();
    assert_eq!(out.granted, vec![young]);
    // The old one arrives: the young holder is asked to give the lock up.
    request(&mut lock, old, LockKind::Exclusive);
    let out = lock.process_queue();
    assert!(out.granted.is_empty());
    assert_eq!(out.preempted, vec![young]);
    // Asking again changes nothing.
    let out = lock.process_queue();
    assert!(out.granted.is_empty());
    assert!(out.preempted.is_empty());
    // The young one aborts, and the old one is granted the lock.
    match lock.accept(Message::Abort { txid: young }) {
        LockEvent::Aborted { txid, data } => {
            assert_eq!(txid, young);
            assert!(data.shared.preempting);
            assert_eq!(data.exclusive, Some(ExclusiveLockState::Unchanged));
        }
        other => panic!("unexpected event {:?}", other),
    }
    let out = lock.process_queue();
    assert_eq!(out.granted, vec![old]);
    assert!(out.preempted.is_empty());
    assert!(lock.exclusive_lock(&old).is_some());
}

#[test]
fn abort_and_release_need_a_held_lock() {
    let mut lock = Lock::new();
    let release = |txid| Message::Release { txid, basis: BasisStamp::empty() };
    assert!(!lock.can_take(&Message::Abort { txid: tx(1) }));
    assert!(!lock.can_take(&release(tx(1))));
    request(&mut lock, tx(1), LockKind::Shared);
    // Queued is not held.
    assert!(!lock.holds(&tx(1)));
    assert!(!lock.can_take(&Message::Abort { txid: tx(1) }));
    lock.process_queue();
    assert!(lock.holds(&tx(1)));
    assert!(lock.can_take(&Message::Abort { txid: tx(1) }));
    assert!(lock.can_take(&release(tx(1))));
    assert!(!lock.can_take(&release(tx(2))));
    // What is none of the table's can be taken: it comes back.
    assert!(lock.can_take(&Message::Retire { txid: tx(2) }));
}

#[test]
fn release_hands_back_what_was_staged() {
    let mut lock = Lock::new();
    request(&mut lock, tx(1), LockKind::Exclusive);
    lock.process_queue();
    *lock.exclusive_lock_mut(&tx(1)).unwrap() = ExclusiveLockState::Retire;
    let mut basis = BasisStamp::empty();
    basis.add(Address { index: 3 }, reactive_fabric::basis::Iteration(2));
    match lock.accept(Message::Release { txid: tx(1), basis }) {
        LockEvent::Released { txid, data, basis } => {
            assert_eq!(txid, tx(1));
            assert_eq!(data.exclusive, Some(ExclusiveLockState::Retire));
            assert_eq!(basis.latest(Address { index: 3 }).0, 2);
        }
        other => panic!("unexpected event {:?}", other),
    }
    assert_eq!(lock.holder_count(), 0);
}

#[test]
fn the_last_shared_holder_frees_the_node() {
    let mut lock = Lock::new();
    request(&mut lock, tx(1), LockKind::Shared);
    request(&mut lock, tx(2), LockKind::Shared);
    lock.process_queue();
    request(&mut lock, tx(3), LockKind::Exclusive);
    assert!(lock.process_queue().granted.is_empty());
    assert!(matches!(lock.accept(Message::Abort { txid: tx(1) }), LockEvent::Aborted { .. }));
    assert!(lock.process_queue().granted.is_empty());
    assert!(matches!(
        lock.accept(Message::Release { txid: tx(2), basis: BasisStamp::empty() }),
        LockEvent::Released { .. }
    ));
    assert_eq!(lock.process_queue().granted, vec![tx(3)]);
}

#[test]
fn other_messages_come_back_unhandled() {
    let mut lock = Lock::new();
    let message = Message::Retire { txid: tx(1) };
    assert_eq!(lock.accept(message), LockEvent::Unhandled(Message::Retire { txid: tx(1) }));
}

#[test]
fn held_locks_lookups_see_the_exclusive_holder_as_a_shared_holder() {
    let mut lock = Lock::new();
    request(&mut lock, tx(1), LockKind::Exclusive);
    lock.process_queue();
    assert!(lock.shared_lock(&tx(1)).is_some());
    assert!(lock.shared_lock_mut(&tx(1)).is_some());
    assert!(lock.exclusive_lock(&tx(2)).is_none());
    assert!(lock.shared_lock(&tx(2)).is_none());
    let free = HeldLocks::Free;
    assert!(free.shared(&tx(1)).is_none());
    assert!(free.exclusive(&tx(1)).is_none());
    assert!(free.visit_shared().is_empty());
}

#[test]
fn handling_a_message_runs_the_queue() {
    let mut lock = Lock::new();
    // A request on a free table is granted at once.
    let (event, out) = lock.handle(Message::Lock { txid: tx(2), kind: LockKind::Exclusive });
    assert_eq!(event, LockEvent::Queued { txid: tx(2), kind: LockKind::Exclusive });
    assert_eq!(out.granted, vec![tx(2)]);
    assert!(out.preempted.is_empty());
    assert!(lock.exclusive_lock(&tx(2)).is_some());
    // An older request waits, and wounds the holder once.
    let (event, out) = lock.handle(Message::Lock { txid: tx(1), kind: LockKind::Shared });
    assert_eq!(event, LockEvent::Queued { txid: tx(1), kind: LockKind::Shared });
    assert!(out.granted.is_empty());
    assert_eq!(out.preempted, vec![tx(2)]);
    let (_, out) = lock.handle(Message::Lock { txid: tx(3), kind: LockKind::Shared });
    assert!(out.granted.is_empty());
    assert!(out.preempted.is_empty());
    // What breaks the protocol is not handed over.
    assert!(!lock.can_take(&Message::Lock { txid: tx(1), kind: LockKind::Exclusive }));
    assert!(!lock.can_take(&Message::Abort { txid: tx(7) }));
    // A message of another kind comes back, and the queue is run all the same.
    let (event, out) = lock.handle(Message::Retire { txid: tx(1) });
    assert_eq!(event, LockEvent::Unhandled(Message::Retire { txid: tx(1) }));
    assert!(out.granted.is_empty() && out.preempted.is_empty());
    // Once the holder gives up, those who waited are granted, oldest first.
    let (event, out) = lock.handle(Message::Abort { txid: tx(2) });
    assert!(matches!(event, LockEvent::Aborted { txid, .. } if txid == tx(2)));
    assert_eq!(out.granted, vec![tx(1), tx(3)]);
    assert!(out.preempted.is_empty());
    assert!(lock.shared_lock(&tx(1)).is_some() && lock.shared_lock(&tx(3)).is_some());
    let (event, out) =
        lock.handle(Message::Release { txid: tx(1), basis: BasisStamp::empty() });
    assert!(matches!(event, LockEvent::Released { txid, .. } if txid == tx(1)));
    assert!(out.granted.is_empty() && out.preempted.is_empty());
}
