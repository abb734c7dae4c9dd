use reactive_fabric::actor::Address;
use reactive_fabric::address_map::AddressSet;
use reactive_fabric::basis::{BasisStamp, Iteration};
use reactive_fabric::expr::{Expr, Value};
use reactive_fabric::message::{InputMetadata, StampedValue, Violation};
use reactive_fabric::reactive::definition::Definition;

fn addr(index: usize) -> Address {
    Address { index }
}

fn roots(indices: &[usize]) -> AddressSet {
    let mut set = AddressSet::new();
    for index in indices {
        set.insert(addr(*index));
    }
    set
}

fn stamp(entries: &[(usize, usize)]) -> BasisStamp {
    let mut basis = BasisStamp::empty();
    for (index, iteration) in entries {
        basis.add(addr(*index), Iteration(*iteration));
    }
    basis
}

fn update(value: isize, entries: &[(usize, usize)]) -> StampedValue {
    StampedValue { value: Value::Integer(value), basis: stamp(entries) }
}

fn input(index: usize, ancestors: &[usize]) -> (Address, InputMetadata) {
    (addr(index), InputMetadata { ancestors: roots(ancestors) })
}

#[test]
fn a_definition_starts_without_a_value() {
    let definition = Definition::new(Expr::Read(addr(1)), vec![input(1, &[1])]);
    assert!(definition.compute().is_none());
    assert_eq!(definition.input_addresses(), vec![addr(1)]);
}

#[test]
fn one_input_with_an_empty_queue_has_no_batch() {
    let mut definition = Definition::new(Expr::Read(addr(1)), vec![input(1, &[1])]);
    assert!(definition.find_batch().is_none());
    assert!(definition.find_and_apply_batch().is_none());
    assert!(definition.compute().is_none());
}

#[test]
fn the_value_stays_while_the_queue_is_empty() {
    let mut definition = Definition::new(Expr::Read(addr(1)), vec![input(1, &[1])]);
    definition.add_update(addr(1), update(4, &[(1, 1)]));
    let first = definition.find_and_apply_batch().unwrap();
    assert_eq!(first.value, Value::Integer(4));
    assert!(definition.find_and_apply_batch().is_none());
    let again = definition.compute().unwrap();
    assert_eq!(again.value, Value::Integer(4));
    assert_eq!(again.basis.latest(addr(1)), Iteration(1));
}

#[test]
fn an_update_of_the_only_input_is_a_batch() {
    let mut definition = Definition::new(Expr::Read(addr(1)), vec![input(1, &[1])]);
    definition.add_update(addr(1), update(2, &[(1, 1)]));
    let (counts, basis) = definition.find_batch().unwrap();
    assert_eq!(counts, vec![1]);
    assert_eq!(basis.latest(addr(1)), Iteration(1));
    let out = definition.find_and_apply_batch().unwrap();
    assert_eq!(out.value, Value::Integer(2));
    assert_eq!(out.basis.latest(addr(1)), Iteration(1));
}

#[test]
fn updates_of_one_input_are_taken_one_at_a_time_and_in_order() {
    let mut definition = Definition::new(Expr::Read(addr(1)), vec![input(1, &[1])]);
    definition.add_update(addr(1), update(10, &[(1, 1)]));
    definition.add_update(addr(1), update(20, &[(1, 2)]));
    definition.add_update(addr(1), update(30, &[(1, 3)]));
    assert_eq!(definition.find_and_apply_batch().unwrap().value, Value::Integer(10));
    assert_eq!(definition.find_and_apply_batch().unwrap().value, Value::Integer(20));
    assert_eq!(definition.find_and_apply_batch().unwrap().value, Value::Integer(30));
    assert!(definition.find_and_apply_batch().is_none());
}

#[test]
fn only_the_inputs_are_known() {
    let mut definition = Definition::new(Expr::Read(addr(1)), vec![input(1, &[1])]);
    assert!(definition.has_input(addr(1)));
    assert!(!definition.has_input(addr(2)));
}

#[test]
fn a_batch_waits_for_the_input_that_lags_behind() {
    // Both inputs derive from the root 9. The first input has seen iteration
    // 1 of it; the second has not yet.
    let expr = Expr::Tuple(vec![Expr::Read(addr(1)), Expr::Read(addr(2))]);
    let mut definition = Definition::new(expr, vec![input(1, &[9]), input(2, &[9])]);
    definition.add_update(addr(1), update(100, &[(9, 1)]));
    // The first input, tried as the seed, needs the second to catch up, and
    // the second has nothing queued.
    assert!(definition.find_and_apply_batch().is_none());
    definition.add_update(addr(2), update(200, &[(9, 1)]));
    // Now the second input can be the seed: the first was explored, so it
    // may give its update too.
    let out = definition.find_and_apply_batch().unwrap();
    assert_eq!(out.value, Value::Tuple(vec![Value::Integer(100), Value::Integer(200)]));
    assert_eq!(out.basis.latest(addr(9)), Iteration(1));
    assert!(definition.find_and_apply_batch().is_none());
}

#[test]
fn independent_inputs_do_not_wait_for_each_other() {
    let expr = Expr::Tuple(vec![Expr::Read(addr(1)), Expr::Read(addr(2))]);
    let mut definition = Definition::new(expr, vec![input(1, &[1]), input(2, &[2])]);
    definition.add_update(addr(1), update(5, &[(1, 1)]));
    // The batch is applied, but the second input has no baseline yet.
    assert!(definition.find_and_apply_batch().is_none());
    assert!(definition.find_batch().is_none());
    definition.add_update(addr(2), update(6, &[(2, 1)]));
    let out = definition.find_and_apply_batch().unwrap();
    assert_eq!(out.value, Value::Tuple(vec![Value::Integer(5), Value::Integer(6)]));
    assert_eq!(out.basis.latest(addr(1)), Iteration(1));
    assert_eq!(out.basis.latest(addr(2)), Iteration(1));
    // An update of one input alone is a batch; the stamp keeps what the
    // other input's baseline says.
    definition.add_update(addr(1), update(7, &[(1, 2)]));
    let out = definition.find_and_apply_batch().unwrap();
    assert_eq!(out.value, Value::Tuple(vec![Value::Integer(7), Value::Integer(6)]));
    assert_eq!(out.basis.latest(addr(1)), Iteration(2));
    assert_eq!(out.basis.latest(addr(2)), Iteration(1));
}

#[test]
fn apply_batch_takes_what_it_is_told_to_take() {
    let mut definition = Definition::new(Expr::Read(addr(1)), vec![input(1, &[1])]);
    definition.add_update(addr(1), update(1, &[(1, 1)]));
    definition.add_update(addr(1), update(2, &[(1, 2)]));
    definition.add_update(addr(1), update(3, &[(1, 3)]));
    let out = definition.apply_batch(&vec![2], stamp(&[(1, 2)])).unwrap();
    assert_eq!(out.value, Value::Integer(2));
    assert_eq!(out.basis.latest(addr(1)), Iteration(2));
    let out = definition.find_and_apply_batch().unwrap();
    assert_eq!(out.value, Value::Integer(3));
}

#[test]
fn ancestors_are_those_of_all_inputs() {
    let expr = Expr::Tuple(vec![Expr::Read(addr(1)), Expr::Read(addr(2))]);
    let definition = Definition::new(expr, vec![input(1, &[7, 8]), input(2, &[8, 9])]);
    let ancestors = definition.ancestors();
    assert_eq!(ancestors.len(), 3);
    assert!(ancestors.contains(addr(7)));
    assert!(ancestors.contains(addr(8)));
    assert!(ancestors.contains(addr(9)));
    assert!(!ancestors.contains(addr(1)));
}

#[test]
fn reconfigure_drops_the_inputs_that_are_no_longer_read() {
    let expr = Expr::Tuple(vec![Expr::Read(addr(1)), Expr::Read(addr(2))]);
    let mut definition = Definition::new(expr, vec![input(1, &[1]), input(2, &[2])]);
    definition.add_update(addr(1), update(5, &[(1, 1)]));
    definition.add_update(addr(2), update(6, &[(2, 1)]));
    assert!(definition.find_and_apply_batch().is_some() || definition.find_and_apply_batch().is_some());
    // The new expression reads the first input only, whose baseline stays.
    let out = definition.reconfigure(Expr::Read(addr(1)), vec![]).unwrap();
    assert_eq!(out.value, Value::Integer(5));
    assert_eq!(out.basis.latest(addr(1)), Iteration(1));
    assert_eq!(out.basis.latest(addr(2)), Iteration(0));
    assert_eq!(definition.input_addresses(), vec![addr(1)]);
    assert!(!definition.has_input(addr(2)));
}

#[test]
fn reconfigure_sets_up_the_inputs_it_is_given_afresh() {
    let mut definition = Definition::new(Expr::Read(addr(1)), vec![input(1, &[1])]);
    definition.add_update(addr(1), update(5, &[(1, 1)]));
    assert!(definition.find_and_apply_batch().is_some());
    let expr = Expr::Tuple(vec![Expr::Read(addr(1)), Expr::Read(addr(3))]);
    // The first input is named again, so it starts over without a baseline.
    assert!(definition.reconfigure(expr, vec![input(1, &[1]), input(3, &[3])]).is_none());
    assert_eq!(definition.input_addresses(), vec![addr(1), addr(3)]);
    assert!(definition.compute().is_none());
}

#[test]
fn an_expression_that_reads_no_input_has_no_value() {
    let definition = Definition::new(Expr::Read(addr(4)), vec![]);
    assert!(definition.compute().is_none());
    let constant = Definition::new(Expr::Value(Value::Integer(3)), vec![]);
    let out = constant.compute().unwrap();
    assert_eq!(out.value, Value::Integer(3));
    assert!(out.basis.is_empty());
}
