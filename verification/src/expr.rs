//! Values, their types, and the expressions that definitions evaluate.

use crate::actor::VersionedAddress;
use vstd::prelude::*;

pub mod eval;

verus! {

/// The name under which a reactive node is registered.
#[derive(Debug, PartialEq, Eq, Hash)]
pub struct Name {
    pub text: String,
}

impl Name {
    /// The name as a sequence of characters.
    pub open spec fn view(&self) -> Seq<char> {
        self.text@
    }

    /// Whether two names are the same name.
    pub fn same(&self, other: &Name) -> (b: bool)
        ensures
            b == (self@ == other@),
    {
        self.text == other.text
    }
}

impl Clone for Name {
    fn clone(&self) -> (copy: Self)
        ensures
            copy == *self,
    {
        Name { text: self.text.clone() }
    }
}

/// The mathematical content of an [`Ident`].
pub enum IdentView {
    New(Seq<char>),
    Existing(VersionedAddress),
}

/// Names a node in an upgrade: one that the upgrade brings into being, by its
/// name, or one that exists, by its address and version.
#[derive(Debug, PartialEq, Eq, Hash)]
pub enum Ident {
    New(Name),
    Existing(VersionedAddress),
}

impl Ident {
    /// The identifier as mathematics.
    pub open spec fn view(&self) -> IdentView {
        match self {
            Ident::New(name) => IdentView::New(name@),
            Ident::Existing(address) => IdentView::Existing(*address),
        }
    }

    /// Whether two identifiers name the same node.
    pub fn same(&self, other: &Ident) -> (b: bool)
        ensures
            b == (self@ == other@),
    {
        match (self, other) {
            (Ident::New(a), Ident::New(b)) => a.same(b),
            (Ident::Existing(a), Ident::Existing(b)) => *a == *b,
            _ => false,
        }
    }
}

impl Clone for Ident {
    fn clone(&self) -> (copy: Self)
        ensures
            copy == *self,
    {
        match self {
            Ident::New(name) => Ident::New(name.clone()),
            Ident::Existing(address) => Ident::Existing(*address),
        }
    }
}

impl From<VersionedAddress> for Ident {
    fn from(value: VersionedAddress) -> (ident: Ident) {
        Ident::Existing(value)
    }
}

impl vstd::std_specs::convert::FromSpecImpl<VersionedAddress> for Ident {
    open spec fn obeys_from_spec() -> bool {
        true
    }

    open spec fn from_spec(value: VersionedAddress) -> Ident {
        Ident::Existing(value)
    }
}

/// A value held by a reactive node.
#[derive(Debug, PartialEq, Eq)]
pub enum Value {
    Tuple(Vec<Value>),
    Integer(isize),
}

/// The mathematical content of a [`Value`].
pub enum ValueView {
    Tuple(Seq<ValueView>),
    Integer(int),
}

impl Value {
    /// The value as mathematics.
    pub open spec fn view(&self) -> ValueView
        decreases self,
    {
        match self {
            Value::Tuple(items) => ValueView::Tuple(
                Seq::new(
                    items@.len(),
                    |i: int|
                        if 0 <= i < items@.len() {
                            items@[i].view()
                        } else {
                            ValueView::Integer(0)
                        },
                ),
            ),
            Value::Integer(n) => ValueView::Integer(*n as int),
        }
    }
}

impl Clone for Value {
    fn clone(&self) -> (copy: Self)
        ensures
            copy@ == self@,
        decreases self,
    {
        match self {
            Value::Tuple(items) => {
                let mut copies: Vec<Value> = Vec::new();
                let mut i: usize = 0;
                while i < items.len()
                    invariant
                        *self == Value::Tuple(*items),
                        i <= items.len(),
                        copies@.len() == i,
                        forall|j: int| 0 <= j < i ==> copies@[j]@ == items@[j]@,
                    decreases items.len() - i,
                {
                    proof {
                        vstd::std_specs::vec::axiom_vec_index_decreases(*items, i as int);
                        assert(decreases_to!(self => self->Tuple_0));
                    }
                    let item = items[i].clone();
                    copies.push(item);
                    i += 1;
                }
                let copy = Value::Tuple(copies);
                proof {
                    assert(copy@->Tuple_0 =~= self@->Tuple_0);
                }
                copy
            },
            Value::Integer(n) => Value::Integer(*n),
        }
    }
}

/// The shape of a value.
#[derive(Debug, PartialEq, Eq)]
pub enum Type {
    Tuple(Vec<Type>),
    Integer,
}

/// The mathematical content of a [`Type`].
pub enum TypeView {
    Tuple(Seq<TypeView>),
    Integer,
}

impl Type {
    /// The type as mathematics.
    pub open spec fn view(&self) -> TypeView
        decreases self,
    {
        match self {
            Type::Tuple(items) => TypeView::Tuple(
                Seq::new(
                    items@.len(),
                    |i: int|
                        if 0 <= i < items@.len() {
                            items@[i].view()
                        } else {
                            TypeView::Integer
                        },
                ),
            ),
            Type::Integer => TypeView::Integer,
        }
    }
}

impl ValueView {
    /// The type of a value: integers are integers, and a tuple has the tuple of
    /// its items' types.
    pub open spec fn type_of(self) -> TypeView
        decreases self,
    {
        match self {
            ValueView::Tuple(items) => TypeView::Tuple(
                Seq::new(
                    items.len(),
                    |i: int|
                        if 0 <= i < items.len() {
                            items[i].type_of()
                        } else {
                            TypeView::Integer
                        },
                ),
            ),
            ValueView::Integer(_) => TypeView::Integer,
        }
    }
}

impl Value {
    /// Computes the type of this value.
    pub fn compute_type(&self) -> (ty: Type)
        ensures
            ty@ == self@.type_of(),
        decreases self,
    {
        match self {
            Value::Tuple(items) => {
                let mut types: Vec<Type> = Vec::new();
                let mut i: usize = 0;
                while i < items.len()
                    invariant
                        *self == Value::Tuple(*items),
                        i <= items.len(),
                        types@.len() == i,
                        forall|j: int| 0 <= j < i ==> types@[j]@ == items@[j]@.type_of(),
                    decreases items.len() - i,
                {
                    proof {
                        vstd::std_specs::vec::axiom_vec_index_decreases(*items, i as int);
                        assert(decreases_to!(self => self->Tuple_0));
                    }
                    let ty = items[i].compute_type();
                    types.push(ty);
                    i += 1;
                }
                let ty = Type::Tuple(types);
                proof {
                    assert(ty@->Tuple_0 =~= self@.type_of()->Tuple_0);
                }
                ty
            },
            Value::Integer(_) => Type::Integer,
        }
    }
}

/// An expression over identifiers of type `I`.
#[derive(Debug, PartialEq, Eq)]
pub enum Expr<I> {
    /// A tuple of expressions; it is a value once all of its items are.
    Tuple(Vec<Expr<I>>),
    /// The current value of the node that the identifier names.
    Read(I),
    /// A value; nothing is left to evaluate.
    Value(Value),
}

/// The mathematical content of an [`Expr`].
pub enum ExprView<I> {
    Tuple(Seq<ExprView<I>>),
    Read(I),
    Value(ValueView),
}

impl<I> Expr<I> {
    /// The expression as mathematics.
    pub open spec fn view(&self) -> ExprView<I>
        decreases self,
    {
        match self {
            Expr::Tuple(items) => ExprView::Tuple(
                Seq::new(
                    items@.len(),
                    |i: int|
                        if 0 <= i < items@.len() {
                            items@[i].view()
                        } else {
                            ExprView::Value(ValueView::Integer(0))
                        },
                ),
            ),
            Expr::Read(ident) => ExprView::Read(*ident),
            Expr::Value(value) => ExprView::Value(value@),
        }
    }
}

/// What a transaction does to the values of variables.
#[derive(Debug, PartialEq, Eq)]
pub enum Action {
    /// The first action, and once nothing is left of it, the second.
    Then(Box<Action>, Box<Action>),
    /// Writes the value of the expression to the variable.
    Write(VersionedAddress, Expr<VersionedAddress>),
    /// Nothing is left to do.
    Nil,
}

/// The mathematical content of an [`Action`].
pub enum ActionView {
    Then(Box<ActionView>, Box<ActionView>),
    Write(VersionedAddress, ExprView<VersionedAddress>),
    Nil,
}

impl Action {
    /// The action as mathematics.
    pub open spec fn view(&self) -> ActionView
        decreases self,
    {
        match self {
            Action::Then(first, second) => ActionView::Then(
                Box::new(first.view()),
                Box::new(second.view()),
            ),
            Action::Write(address, expr) => ActionView::Write(*address, expr@),
            Action::Nil => ActionView::Nil,
        }
    }
}

/// What a transaction does to the graph of nodes.
#[derive(Debug, PartialEq, Eq)]
pub enum Upgrade {
    /// The first upgrade, and once nothing is left of it, the second.
    Then(Box<Upgrade>, Box<Upgrade>),
    /// Makes the node a variable with the value of the expression.
    Var(Ident, Expr<Ident>),
    /// Makes the node a definition with the expression.
    Def(Ident, Expr<Ident>),
    /// Deletes the node.
    Del(VersionedAddress),
    /// Nothing is left to do.
    Nil,
}

/// The mathematical content of an [`Upgrade`].
pub enum UpgradeView {
    Then(Box<UpgradeView>, Box<UpgradeView>),
    Var(Ident, ExprView<Ident>),
    Def(Ident, ExprView<Ident>),
    Del(VersionedAddress),
    Nil,
}

impl Upgrade {
    /// The upgrade as mathematics.
    pub open spec fn view(&self) -> UpgradeView
        decreases self,
    {
        match self {
            Upgrade::Then(first, second) => UpgradeView::Then(
                Box::new(first.view()),
                Box::new(second.view()),
            ),
            Upgrade::Var(ident, expr) => UpgradeView::Var(*ident, expr@),
            Upgrade::Def(ident, expr) => UpgradeView::Def(*ident, expr@),
            Upgrade::Del(address) => UpgradeView::Del(*address),
            Upgrade::Nil => UpgradeView::Nil,
        }
    }
}

impl<I: Copy> Clone for Expr<I> {
    fn clone(&self) -> (copy: Self)
        ensures
            copy@ == self@,
        decreases self,
    {
        match self {
            Expr::Tuple(items) => {
                let mut copies: Vec<Expr<I>> = Vec::new();
                let mut i: usize = 0;
                while i < items.len()
                    invariant
                        *self == Expr::Tuple(*items),
                        i <= items.len(),
                        copies@.len() == i,
                        forall|j: int| 0 <= j < i ==> copies@[j]@ == items@[j]@,
                    decreases items.len() - i,
                {
                    proof {
                        vstd::std_specs::vec::axiom_vec_index_decreases(*items, i as int);
                        assert(decreases_to!(self => self->Tuple_0));
                    }
                    let item = items[i].clone();
                    copies.push(item);
                    i += 1;
                }
                let copy = Expr::Tuple(copies);
                proof {
                    assert(copy@->Tuple_0 =~= self@->Tuple_0);
                }
                copy
            },
            Expr::Read(ident) => Expr::Read(*ident),
            Expr::Value(value) => Expr::Value(value.clone()),
        }
    }
}

} // verus!
