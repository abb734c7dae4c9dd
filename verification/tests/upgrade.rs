use reactive_fabric::actor::{Address, Context, Version, VersionedAddress};
use reactive_fabric::address_map::{AddressMap, AddressSet};
use reactive_fabric::basis::{BasisStamp, Iteration};
use reactive_fabric::directory::Directory;
use reactive_fabric::expr::{Expr, Ident, Name, Value};
use reactive_fabric::message::{InputMetadata, LockKind, NodeKind, ReactiveConfiguration, StampedValue};
use reactive_fabric::reactive::Reactive;
use reactive_fabric::transaction::{HeldLock, StagedNode, TransactionError};
use reactive_fabric::upgrade::{lookup, plan, resolve, Blueprint, Plan};

fn addr(index: usize) -> Address {
    Address { index }
}

fn at(address: Address) -> VersionedAddress {
    VersionedAddress { address, version: Version(0) }
}

fn name(text: &str) -> Name {
    Name { text: text.to_string() }
}

fn set(members: &[usize]) -> AddressSet {
    let mut set = AddressSet::new();
    for member in members {
        set.insert(addr(*member));
    }
    set
}

fn held(node_kind: NodeKind) -> HeldLock {
    HeldLock {
        kind: LockKind::Exclusive,
        version: Version(0),
        node_kind,
        value: None,
        read: false,
        reading: false,
        wrote: false,
    }
}

fn variable(value: isize) -> ReactiveConfiguration {
    ReactiveConfiguration::Variable {
        value: StampedValue { value: Value::Integer(value), basis: BasisStamp::empty() },
    }
}

fn locks() -> AddressMap<HeldLock> {
    let mut locks = AddressMap::new();
    locks.insert(addr(5), held(NodeKind::Variable { iteration: Iteration(2) }));
    locks.insert(addr(6), held(NodeKind::Definition { ancestors: set(&[8, 9]) }));
    locks.insert(addr(7), held(NodeKind::Variable { iteration: Iteration(0) }));
    locks
}

#[test]
fn a_blueprint_has_one_step_for_each_staged_node() {
    let staged = vec![
        StagedNode::Var(Ident::New(name("x")), Value::Integer(1)),
        StagedNode::Def(
            Ident::New(name("y")),
            Expr::Tuple(vec![
                Expr::Read(Ident::New(name("x"))),
                Expr::Read(Ident::Existing(at(addr(6)))),
                Expr::Read(Ident::New(name("x"))),
            ]),
            None,
        ),
        StagedNode::Def(
            Ident::Existing(at(addr(5))),
            Expr::Tuple(vec![
                Expr::Read(Ident::New(name("y"))),
                Expr::Read(Ident::Existing(at(addr(7)))),
            ]),
            None,
        ),
        StagedNode::Del(at(addr(7))),
        StagedNode::Var(Ident::Existing(at(addr(6))), Value::Integer(3)),
        StagedNode::Def(Ident::New(name("z")), Expr::Read(Ident::Existing(at(addr(6)))), None),
    ];
    let directory = Directory::new(&vec![]);
    let blueprint = plan(&staged, &locks(), &directory, addr(20)).unwrap();
    let x = addr(20);
    let y = addr(21);
    let z = addr(22);
    assert_eq!(
        blueprint,
        Blueprint {
            plans: vec![
                Plan::Create { name: name("x"), address: x, configuration: variable(1) },
                Plan::Create {
                    name: name("y"),
                    address: y,
                    configuration: ReactiveConfiguration::Definition {
                        expr: Expr::Tuple(vec![Expr::Read(x), Expr::Read(addr(6)), Expr::Read(x)]),
                        inputs: vec![
                            (x, InputMetadata { ancestors: set(&[20]) }),
                            (addr(6), InputMetadata { ancestors: set(&[8, 9]) }),
                        ],
                    },
                },
                Plan::Reconfigure {
                    address: addr(5),
                    configuration: ReactiveConfiguration::Definition {
                        expr: Expr::Tuple(vec![Expr::Read(y), Expr::Read(addr(7))]),
                        inputs: vec![
                            (y, InputMetadata { ancestors: set(&[20, 8, 9]) }),
                            (addr(7), InputMetadata { ancestors: set(&[7]) }),
                        ],
                    },
                },
                Plan::Retire(addr(7)),
                Plan::Reconfigure { address: addr(6), configuration: variable(3) },
                // The node at 6 is a variable by now, and derives from itself.
                Plan::Create {
                    name: name("z"),
                    address: z,
                    configuration: ReactiveConfiguration::Definition {
                        expr: Expr::Read(addr(6)),
                        inputs: vec![(addr(6), InputMetadata { ancestors: set(&[6]) })],
                    },
                },
            ],
            subscriptions: vec![(addr(6), y), (addr(7), addr(5)), (addr(6), z)],
            first_subscribers: vec![(x, y), (y, addr(5))],
        }
    );
}

#[test]
fn a_name_is_taken_by_the_directory_or_by_the_upgrade() {
    let twice = vec![
        StagedNode::Var(Ident::New(name("x")), Value::Integer(1)),
        StagedNode::Var(Ident::New(name("x")), Value::Integer(2)),
    ];
    let directory = Directory::new(&vec![]);
    assert_eq!(plan(&twice, &locks(), &directory, addr(20)), Err(TransactionError::NameTaken));
    let once = vec![StagedNode::Var(Ident::New(name("x")), Value::Integer(1))];
    assert!(plan(&once, &locks(), &directory, addr(20)).is_ok());
    let mut directory = Directory::new(&vec![]);
    let mut ctx: Context<Reactive> = Context::new(addr(1), 100);
    directory.register(name("x"), at(addr(3)), &mut ctx);
    assert_eq!(plan(&once, &locks(), &directory, addr(20)), Err(TransactionError::NameTaken));
    // A name whose node was deleted is free again.
    directory.delete(at(addr(3)), &mut ctx);
    assert!(plan(&once, &locks(), &directory, addr(20)).is_ok());
}

#[test]
fn a_definition_reads_only_what_is_there() {
    let directory = Directory::new(&vec![]);
    let unknown_name = vec![StagedNode::Def(
        Ident::New(name("d")),
        Expr::Read(Ident::New(name("x"))),
        None,
    )];
    assert_eq!(
        plan(&unknown_name, &locks(), &directory, addr(20)),
        Err(TransactionError::Unresolved)
    );
    let unlocked = vec![StagedNode::Def(
        Ident::New(name("d")),
        Expr::Read(Ident::Existing(at(addr(4)))),
        None,
    )];
    assert_eq!(plan(&unlocked, &locks(), &directory, addr(20)), Err(TransactionError::Unresolved));
    // What cannot be read comes before the name: the first fault is told.
    let both = vec![
        StagedNode::Var(Ident::New(name("d")), Value::Integer(1)),
        StagedNode::Def(Ident::New(name("d")), Expr::Read(Ident::Existing(at(addr(4)))), None),
    ];
    assert_eq!(plan(&both, &locks(), &directory, addr(20)), Err(TransactionError::Unresolved));
}

#[test]
fn new_nodes_need_addresses() {
    let directory = Directory::new(&vec![]);
    let staged = vec![
        StagedNode::Del(at(addr(7))),
        StagedNode::Var(Ident::New(name("x")), Value::Integer(1)),
        StagedNode::Var(Ident::New(name("y")), Value::Integer(2)),
    ];
    let last = addr(usize::MAX - 1);
    assert_eq!(plan(&staged, &locks(), &directory, last), Err(TransactionError::NoAddress));
    let blueprint = plan(&staged, &locks(), &directory, addr(usize::MAX - 2)).unwrap();
    assert_eq!(
        blueprint.plans[2],
        Plan::Create { name: name("y"), address: last, configuration: variable(2) }
    );
    let none = vec![StagedNode::Del(at(addr(7)))];
    assert!(plan(&none, &locks(), &directory, addr(usize::MAX)).is_ok());
}

#[test]
fn a_name_stands_for_the_node_that_was_last_made_under_it() {
    let created = vec![(name("x"), addr(20)), (name("y"), addr(21)), (name("x"), addr(22))];
    assert_eq!(lookup(&created, &Ident::New(name("x"))), Some(addr(22)));
    assert_eq!(lookup(&created, &Ident::New(name("y"))), Some(addr(21)));
    assert_eq!(lookup(&created, &Ident::New(name("z"))), None);
    assert_eq!(lookup(&created, &Ident::Existing(at(addr(3)))), Some(addr(3)));
    let expr = Expr::Tuple(vec![
        Expr::Read(Ident::New(name("y"))),
        Expr::Value(Value::Integer(4)),
        Expr::Read(Ident::Existing(at(addr(3)))),
    ]);
    assert_eq!(
        resolve(&expr, &created),
        Some(Expr::Tuple(vec![
            Expr::Read(addr(21)),
            Expr::Value(Value::Integer(4)),
            Expr::Read(addr(3)),
        ]))
    );
    assert_eq!(resolve(&Expr::Read(Ident::New(name("z"))), &created), None);
}
