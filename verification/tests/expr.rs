use reactive_fabric::expr::eval::ExprEvalContext;
use reactive_fabric::expr::{Expr, Type, Value};

struct Known(Vec<(u32, Value)>);

impl ExprEvalContext<u32> for Known {
    fn read(&self, ident: &u32) -> Option<&Value> {
        self.0.iter().find(|(name, _)| name == ident).map(|(_, value)| value)
    }
}

#[test]
fn integer_has_integer_type() {
    assert_eq!(Value::Integer(5).compute_type(), Type::Integer);
}

#[test]
fn tuple_has_the_tuple_of_its_item_types() {
    let value = Value::Tuple(vec![
        Value::Integer(1),
        Value::Tuple(vec![Value::Integer(2), Value::Integer(3)]),
        Value::Tuple(vec![]),
    ]);
    assert_eq!(
        value.compute_type(),
        Type::Tuple(vec![
            Type::Integer,
            Type::Tuple(vec![Type::Integer, Type::Integer]),
            Type::Tuple(vec![]),
        ])
    );
}

#[test]
fn clone_of_a_value_is_equal() {
    let value = Value::Tuple(vec![Value::Integer(-4), Value::Tuple(vec![Value::Integer(9)])]);
    assert_eq!(value.clone(), value);
}

#[test]
fn eval_replaces_a_known_read() {
    let mut expr = Expr::Read(1u32);
    expr.eval(&Known(vec![(1, Value::Integer(42))]));
    assert_eq!(expr, Expr::Value(Value::Integer(42)));
}

#[test]
fn eval_leaves_an_unknown_read() {
    let mut expr = Expr::Read(2u32);
    expr.eval(&Known(vec![(1, Value::Integer(42))]));
    assert_eq!(expr, Expr::Read(2));
}

#[test]
fn eval_folds_a_tuple_once_all_items_are_values() {
    let mut expr = Expr::Tuple(vec![
        Expr::Read(1u32),
        Expr::Value(Value::Integer(7)),
        Expr::Tuple(vec![Expr::Read(2)]),
    ]);
    expr.eval(&Known(vec![(1, Value::Integer(1)), (2, Value::Integer(2))]));
    assert_eq!(
        expr,
        Expr::Value(Value::Tuple(vec![
            Value::Integer(1),
            Value::Integer(7),
            Value::Tuple(vec![Value::Integer(2)]),
        ]))
    );
}

#[test]
fn eval_keeps_a_tuple_with_an_unknown_item() {
    let mut expr = Expr::Tuple(vec![Expr::Read(1u32), Expr::Tuple(vec![Expr::Read(2)])]);
    expr.eval(&Known(vec![(2, Value::Integer(2))]));
    assert_eq!(
        expr,
        Expr::Tuple(vec![
            Expr::Read(1),
            Expr::Value(Value::Tuple(vec![Value::Integer(2)])),
        ])
    );
}

#[test]
fn eval_of_the_empty_tuple_is_the_empty_tuple_value() {
    let mut expr: Expr<u32> = Expr::Tuple(vec![]);
    expr.eval(&Known(vec![]));
    assert_eq!(expr, Expr::Value(Value::Tuple(vec![])));
}

#[test]
fn visit_reads_lists_reads_from_left_to_right() {
    let expr = Expr::Tuple(vec![
        Expr::Read(3u32),
        Expr::Value(Value::Integer(0)),
        Expr::Tuple(vec![Expr::Read(1), Expr::Read(3)]),
        Expr::Read(2),
    ]);
    let mut visited = Vec::new();
    expr.visit_reads(&mut visited);
    assert_eq!(visited, vec![(&3, true), (&1, true), (&3, true), (&2, true)]);
}

#[test]
fn visit_reads_appends_to_what_was_visited() {
    let first = Expr::Read(1u32);
    let second = Expr::Read(2u32);
    let mut visited = Vec::new();
    first.visit_reads(&mut visited);
    second.visit_reads_as(false, &mut visited);
    assert_eq!(visited, vec![(&1, true), (&2, false)]);
}
