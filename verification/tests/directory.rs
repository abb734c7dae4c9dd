use reactive_fabric::actor::{Address, Context, Envelope, Version, VersionedAddress};
use reactive_fabric::directory::{Directory, DirectoryEvent, DirectoryState};
use reactive_fabric::expr::Name;
use reactive_fabric::message::Message;

fn addr(index: usize) -> Address {
    Address { index }
}

fn name(text: &str) -> Name {
    Name { text: text.to_string() }
}

fn node(index: usize, version: usize) -> VersionedAddress {
    VersionedAddress { address: addr(index), version: Version(version) }
}

/// A directory of the manager at `me` that knows the managers `peers`.
fn directory(me: usize, peers: &[usize]) -> Directory {
    let mut directory = Directory::new(&peers.iter().map(|p| addr(*p)).collect());
    let ctx: Context<()> = Context::new(addr(me), 1000);
    directory.init(&ctx);
    directory
}

fn sent_by(me: usize, run: impl FnOnce(&mut Context<()>)) -> Vec<Envelope> {
    let mut ctx: Context<()> = Context::new(addr(me), 1000);
    run(&mut ctx);
    ctx.finish().0
}

fn state_of(envelope: &Envelope) -> DirectoryState {
    match &envelope.message {
        Message::Directory { state } => state.clone(),
        other => panic!("unexpected message {:?}", other),
    }
}

#[test]
fn a_new_directory_knows_no_node() {
    let directory = directory(1, &[2, 3]);
    assert!(directory.get(&name("a")).is_empty());
    assert!(!directory.has(&node(7, 0)));
}

#[test]
fn a_registered_node_is_found_by_name_and_by_address() {
    let mut directory = directory(1, &[]);
    let sent = sent_by(1, |ctx| {
        directory.register(name("a"), node(7, 0), ctx);
    });
    assert!(sent.is_empty());
    assert_eq!(directory.get(&name("a")), vec![node(7, 0)]);
    assert!(directory.get(&name("b")).is_empty());
    assert!(directory.has(&node(7, 0)));
    assert!(!directory.has(&node(7, 1)));
    assert!(!directory.has(&node(8, 0)));
}

#[test]
fn a_change_is_told_to_every_live_peer_but_oneself() {
    let mut directory = directory(1, &[2, 3]);
    let sent = sent_by(1, |ctx| {
        directory.register(name("a"), node(7, 0), ctx);
    });
    assert_eq!(sent.len(), 2);
    assert_eq!((sent[0].sender, sent[0].target), (addr(1), addr(2)));
    assert_eq!((sent[1].sender, sent[1].target), (addr(1), addr(3)));
    let mut other = directory_of_peer(2);
    let told = sent_by(2, |ctx| {
        assert_eq!(
            other.handle(Message::Directory { state: state_of(&sent[0]) }, ctx),
            DirectoryEvent::UpdatedState
        );
    });
    assert_eq!(other.get(&name("a")), vec![node(7, 0)]);
    // The peer has learned of the managers 1 and 3, and tells them what it
    // knows now.
    assert_eq!(told.len(), 2);
}

fn directory_of_peer(me: usize) -> Directory {
    directory(me, &[])
}

#[test]
fn only_a_later_version_replaces_a_registered_node() {
    let mut directory = directory(1, &[]);
    sent_by(1, |ctx| {
        directory.register(name("a"), node(7, 2), ctx);
        assert!(directory.stale(&name("a"), node(7, 2)));
        assert!(directory.stale(&name("a"), node(7, 1)));
        assert!(!directory.stale(&name("a"), node(7, 3)));
        assert!(!directory.stale(&name("b"), node(7, 0)));
        assert!(!directory.stale(&name("a"), node(8, 0)));
        directory.register(name("a"), node(7, 3), ctx);
    });
    assert_eq!(directory.get(&name("a")), vec![node(7, 3)]);
}

#[test]
fn delete_removes_the_node_at_its_version_only() {
    let mut directory = directory(1, &[2]);
    sent_by(1, |ctx| {
        directory.register(name("a"), node(7, 0), ctx);
        directory.register(name("b"), node(7, 0), ctx);
        directory.register(name("a"), node(8, 4), ctx);
    });
    let sent = sent_by(1, |ctx| {
        assert!(!directory.delete(node(7, 1), ctx));
    });
    assert!(sent.is_empty());
    let sent = sent_by(1, |ctx| {
        assert!(directory.delete(node(7, 0), ctx));
    });
    assert_eq!(sent.len(), 1);
    assert_eq!(directory.get(&name("a")), vec![node(8, 4)]);
    assert!(directory.get(&name("b")).is_empty());
    assert!(!directory.has(&node(7, 0)));
    // A node that was deleted may be registered again.
    sent_by(1, |ctx| {
        directory.register(name("b"), node(7, 0), ctx);
    });
    assert_eq!(directory.get(&name("b")), vec![node(7, 0)]);
}

#[test]
fn concurrent_registrations_under_one_name_both_stay() {
    let mut first = directory(1, &[2]);
    let mut second = directory(2, &[1]);
    let from_first = sent_by(1, |ctx| {
        first.register(name("a"), node(10, 0), ctx);
    });
    let from_second = sent_by(2, |ctx| {
        second.register(name("a"), node(20, 0), ctx);
    });
    sent_by(1, |ctx| {
        first.handle(Message::Directory { state: state_of(&from_second[0]) }, ctx);
    });
    sent_by(2, |ctx| {
        second.handle(Message::Directory { state: state_of(&from_first[0]) }, ctx);
    });
    assert_eq!(first.get(&name("a")), vec![node(10, 0), node(20, 0)]);
    assert_eq!(second.get(&name("a")), vec![node(20, 0), node(10, 0)]);
    // A delete reconciles the two, everywhere.
    let told = sent_by(1, |ctx| {
        assert!(first.delete(node(20, 0), ctx));
    });
    sent_by(2, |ctx| {
        second.handle(Message::Directory { state: state_of(&told[0]) }, ctx);
    });
    assert_eq!(first.get(&name("a")), vec![node(10, 0)]);
    assert_eq!(second.get(&name("a")), vec![node(10, 0)]);
}

#[test]
fn a_deletion_absorbs_a_registration() {
    let mut first = directory(1, &[2]);
    let mut second = directory(2, &[1]);
    let registered = sent_by(1, |ctx| {
        first.register(name("a"), node(10, 0), ctx);
    });
    sent_by(2, |ctx| {
        second.handle(Message::Directory { state: state_of(&registered[0]) }, ctx);
    });
    let deleted = sent_by(2, |ctx| {
        assert!(second.delete(node(10, 0), ctx));
    });
    // The deletion wins in whatever order the two states meet.
    sent_by(1, |ctx| {
        first.handle(Message::Directory { state: state_of(&deleted[0]) }, ctx);
        first.handle(Message::Directory { state: state_of(&registered[0]) }, ctx);
    });
    assert!(first.get(&name("a")).is_empty());
}

#[test]
fn of_two_versions_the_later_stays() {
    let mut first = directory(1, &[2]);
    let mut second = directory(2, &[1]);
    let old = sent_by(1, |ctx| {
        first.register(name("a"), node(10, 1), ctx);
    });
    let new = sent_by(2, |ctx| {
        second.register(name("a"), node(10, 3), ctx);
    });
    sent_by(1, |ctx| {
        first.handle(Message::Directory { state: state_of(&new[0]) }, ctx);
    });
    sent_by(2, |ctx| {
        second.handle(Message::Directory { state: state_of(&old[0]) }, ctx);
    });
    assert_eq!(first.get(&name("a")), vec![node(10, 3)]);
    assert_eq!(second.get(&name("a")), vec![node(10, 3)]);
}

#[test]
fn a_state_that_tells_nothing_new_is_not_passed_on() {
    let mut first = directory(1, &[2]);
    let mut second = directory(2, &[1]);
    let told = sent_by(1, |ctx| {
        first.register(name("a"), node(10, 0), ctx);
    });
    let passed_on = sent_by(2, |ctx| {
        second.handle(Message::Directory { state: state_of(&told[0]) }, ctx);
    });
    assert_eq!(passed_on.len(), 1);
    // The first directory learns nothing from what comes back, and is quiet.
    let echo = sent_by(1, |ctx| {
        first.handle(Message::Directory { state: state_of(&passed_on[0]) }, ctx);
    });
    assert!(echo.is_empty());
    let again = sent_by(2, |ctx| {
        second.handle(Message::Directory { state: state_of(&told[0]) }, ctx);
    });
    assert!(again.is_empty());
}

#[test]
fn a_deleted_manager_is_told_nothing() {
    let mut first = directory(1, &[2, 3]);
    let mut gone = DirectoryState {
        managers: reactive_fabric::address_map::AddressMap::new(),
        nodes: reactive_fabric::directory::NameTable::new(),
    };
    gone.managers.insert(addr(2), true);
    let sent = sent_by(1, |ctx| {
        first.handle(Message::Directory { state: gone }, ctx);
    });
    assert_eq!(sent.len(), 1);
    assert_eq!(sent[0].target, addr(3));
}

#[test]
fn other_messages_come_back_from_the_directory() {
    let mut directory = directory(1, &[]);
    let message = Message::Preempt {
        txid: reactive_fabric::txid::TxId {
            priority: reactive_fabric::txid::TxPriority::Low,
            timestamp: reactive_fabric::txid::Timestamp { epoch_micros: 1 },
            address: addr(1),
        },
    };
    let mut ctx: Context<()> = Context::new(addr(1), 1000);
    match directory.handle(message, &mut ctx) {
        DirectoryEvent::Unhandled(Message::Preempt { .. }) => {}
        other => panic!("unexpected event {:?}", other),
    }
}
