//! Evaluation of expressions against what is currently known.

use super::{Action, ActionView, Expr, ExprView, Ident, Upgrade, UpgradeView, Value, ValueView};
use crate::actor::VersionedAddress;
use vstd::prelude::*;

verus! {

/// What an expression may read while it is evaluated.
pub trait ExprEvalContext<I> {
    /// The value known for `ident`, if one is. A context says here what
    /// [`ExprEvalContext::read`] returns; one that does not say is held to
    /// nothing.
    open spec fn known(&self, ident: I) -> Option<ValueView> {
        vstd::pervasive::arbitrary()
    }

    /// Reads the value held by the node that `ident` names. Returns `None`
    /// while the value is not ready.
    fn read(&self, ident: &I) -> (value: Option<&Value>)
        ensures
            match value {
                Some(v) => self.known(*ident) == Some(v@),
                None => self.known(*ident) is None,
            },
    ;
}

/// What an action may read and write while it is evaluated.
pub trait ActionEvalContext: ExprEvalContext<VersionedAddress> + Sized {
    /// Whether a write to the node at `address` can be performed now. A
    /// context says here what [`ActionEvalContext::write`] returns; one that
    /// does not say is held to nothing.
    open spec fn writable(&self, address: VersionedAddress) -> bool {
        vstd::pervasive::arbitrary()
    }

    /// Whether this context is what `earlier` has become through the writes
    /// `log`, each of a value to a node, in order. A context says here what
    /// its writes do to it and what they leave as it is; one that does not
    /// say promises nothing.
    open spec fn writes_since(&self, earlier: &Self, log: Seq<(VersionedAddress, ValueView)>) -> bool {
        true
    }

    /// Attempts to write `value` to the node at `address`. Returns whether
    /// the write was performed. A write that was performed is what the node
    /// is read as from then on; nothing else changes for the action. The
    /// write joins the writes through which the context has become what it
    /// is.
    fn write(&mut self, address: &VersionedAddress, value: &Value) -> (done: bool)
        ensures
            forall|earlier: Self, log: Seq<(VersionedAddress, ValueView)>| #[trigger]
                old(self).writes_since(&earlier, log) ==> final(self).writes_since(
                    &earlier,
                    if done {
                        log.push((*address, value@))
                    } else {
                        log
                    },
                ),
            done == old(self).writable(*address),
            forall|a: VersionedAddress| #[trigger] final(self).writable(a) == old(self).writable(a),
            forall|a: VersionedAddress|
                #[trigger] final(self).known(a) == if done && a == *address {
                    Some(value@)
                } else {
                    old(self).known(a)
                },
    ;
}

/// What an upgrade has staged for a node.
pub enum Staged {
    /// The node is to be a variable with this value.
    Var(Ident, ValueView),
    /// The node is to be a definition with this expression.
    Def(Ident, ExprView<Ident>),
    /// The node is to be deleted.
    Del(VersionedAddress),
}

/// What an upgrade may read and stage while it is evaluated.
pub trait UpgradeEvalContext: ExprEvalContext<Ident> + Sized {
    /// What has been staged so far, in order. A context says here what its
    /// methods do; one that does not say is held to nothing.
    open spec fn staged(&self) -> Seq<Staged> {
        vstd::pervasive::arbitrary()
    }

    /// Whether `later` is what this context may have become through
    /// staging. A context says here what staging leaves as it is; one that
    /// does not say promises nothing.
    open spec fn grows(&self, later: &Self) -> bool {
        true
    }

    /// Stages a variable with the value `value`. Its value is what the node
    /// is read as from then on.
    fn var(&mut self, ident: Ident, value: Value)
        ensures
            forall|earlier: Self| #[trigger]
                earlier.grows(old(self)) ==> earlier.grows(final(self)),
            final(self).staged() == old(self).staged().push(Staged::Var(ident, value@)),
            forall|i: Ident|
                #[trigger] final(self).known(i) == if i@ == ident@ {
                    Some(value@)
                } else {
                    old(self).known(i)
                },
    ;

    /// Stages a definition with the expression `expr`. The node is read, from
    /// then on, as what the expression evaluates to now, if it does.
    fn def(&mut self, ident: Ident, expr: Expr<Ident>)
        ensures
            forall|earlier: Self| #[trigger]
                earlier.grows(old(self)) ==> earlier.grows(final(self)),
            final(self).staged() == old(self).staged().push(Staged::Def(ident, expr@)),
            forall|i: Ident|
                #[trigger] final(self).known(i) == if i@ == ident@ {
                    match expr@.reduce(|j: Ident| old(self).known(j)) {
                        ExprView::Value(value) => Some(value),
                        _ => None,
                    }
                } else {
                    old(self).known(i)
                },
    ;

    /// Stages the deletion of the node at `address`. The node cannot be read
    /// from then on.
    fn del(&mut self, address: VersionedAddress)
        ensures
            forall|earlier: Self| #[trigger]
                earlier.grows(old(self)) ==> earlier.grows(final(self)),
            final(self).staged() == old(self).staged().push(Staged::Del(address)),
            forall|i: Ident|
                #[trigger] final(self).known(i) == if i@ == Ident::Existing(address)@ {
                    None
                } else {
                    old(self).known(i)
                },
    ;
}

/// What is known of the nodes that an action reads.
pub type Readings = spec_fn(VersionedAddress) -> Option<ValueView>;

impl ActionView {
    /// The action and the readings after one pass of evaluation that starts
    /// with the readings `known`: a write whose expression has become a value
    /// is performed where the node is writable, and is then what the node is
    /// read as; of a sequence the second action is taken up once nothing is
    /// left of the first.
    pub open spec fn run(self, known: Readings, writable: spec_fn(VersionedAddress) -> bool) -> (
        ActionView,
        Readings,
    )
        decreases self,
    {
        match self {
            ActionView::Then(first, second) => {
                let (left, readings) = first.run(known, writable);
                if left is Nil {
                    second.run(readings, writable)
                } else {
                    (ActionView::Then(Box::new(left), second), readings)
                }
            },
            ActionView::Write(address, expr) => {
                let reduced = expr.reduce(known);
                if reduced is Value && writable(address) {
                    (
                        ActionView::Nil,
                        |a: VersionedAddress|
                            if a == address {
                                Some(reduced->Value_0)
                            } else {
                                known(a)
                            },
                    )
                } else {
                    (ActionView::Write(address, reduced), known)
                }
            },
            ActionView::Nil => (ActionView::Nil, known),
        }
    }

    /// The writes that one pass of evaluation performs, in order: see
    /// [`ActionView::run`].
    pub open spec fn written(self, known: Readings, writable: spec_fn(VersionedAddress) -> bool) -> Seq<
        (VersionedAddress, ValueView),
    >
        decreases self,
    {
        match self {
            ActionView::Then(first, second) => {
                let (left, readings) = first.run(known, writable);
                first.written(known, writable) + if left is Nil {
                    second.written(readings, writable)
                } else {
                    Seq::empty()
                }
            },
            ActionView::Write(address, expr) => {
                let reduced = expr.reduce(known);
                if reduced is Value && writable(address) {
                    seq![(address, reduced->Value_0)]
                } else {
                    Seq::empty()
                }
            },
            ActionView::Nil => Seq::empty(),
        }
    }

    /// The nodes that the action writes, in order.
    pub open spec fn writes(self) -> Seq<VersionedAddress>
        decreases self,
    {
        match self {
            ActionView::Then(first, second) => first.writes() + second.writes(),
            ActionView::Write(address, _) => seq![address],
            ActionView::Nil => Seq::empty(),
        }
    }

    /// The nodes that the action reads, in order.
    pub open spec fn reads(self) -> Seq<VersionedAddress>
        decreases self,
    {
        match self {
            ActionView::Then(first, second) => first.reads() + second.reads(),
            ActionView::Write(_, expr) => expr.reads(),
            ActionView::Nil => Seq::empty(),
        }
    }
}

impl Action {
    /// Evaluates the action by value.
    fn evaluated<C: ActionEvalContext>(self, ctx: &mut C) -> (left: Action)
        ensures
            left@ == self@.run(
                |a: VersionedAddress| old(ctx).known(a),
                |a: VersionedAddress| old(ctx).writable(a),
            ).0,
            forall|a: VersionedAddress|
                #[trigger] final(ctx).known(a) == (self@.run(
                    |a: VersionedAddress| old(ctx).known(a),
                    |a: VersionedAddress| old(ctx).writable(a),
                ).1)(a),
            forall|a: VersionedAddress| #[trigger] final(ctx).writable(a) == old(ctx).writable(a),
            forall|earlier: C, log: Seq<(VersionedAddress, ValueView)>| #[trigger]
                old(ctx).writes_since(&earlier, log) ==> final(ctx).writes_since(
                    &earlier,
                    log + self@.written(
                        |a: VersionedAddress| old(ctx).known(a),
                        |a: VersionedAddress| old(ctx).writable(a),
                    ),
                ),
        decreases self,
    {
        let ghost known = |a: VersionedAddress| old(ctx).known(a);
        let ghost writable = |a: VersionedAddress| old(ctx).writable(a);
        match self {
            Action::Then(first, second) => {
                let left = (*first).evaluated(ctx);
                let ghost readings = first@.run(known, writable).1;
                let ghost mid = *ctx;
                let ghost first_log = first@.written(known, writable);
                proof {
                    assert((|a: VersionedAddress| ctx.known(a)) =~= readings);
                    assert((|a: VersionedAddress| ctx.writable(a)) =~= writable);
                }
                match left {
                    Action::Nil => {
                        let rest = (*second).evaluated(ctx);
                        proof {
                            let second_log = second@.written(readings, writable);
                            assert forall|earlier: C, log: Seq<(VersionedAddress, ValueView)>| #[trigger]
                                old(ctx).writes_since(&earlier, log) implies ctx.writes_since(
                                &earlier,
                                log + (first_log + second_log),
                            ) by {
                                assert(mid.writes_since(&earlier, log + first_log));
                                assert((log + first_log) + second_log =~= log + (first_log
                                    + second_log));
                            }
                        }
                        rest
                    },
                    other => {
                        proof {
                            assert(first_log + Seq::<(VersionedAddress, ValueView)>::empty()
                                =~= first_log);
                        }
                        Action::Then(Box::new(other), second)
                    },
                }
            },
            Action::Write(address, expr) => {
                let mut expr = expr;
                expr.eval(&*ctx);
                proof {
                    assert((|ident: VersionedAddress| ctx.known(ident)) =~= known);
                }
                let done = match &expr {
                    Expr::Value(value) => ctx.write(&address, value),
                    _ => false,
                };
                proof {
                    let pass = self@.written(known, writable);
                    assert forall|earlier: C, log: Seq<(VersionedAddress, ValueView)>| #[trigger]
                        old(ctx).writes_since(&earlier, log) implies ctx.writes_since(
                        &earlier,
                        log + pass,
                    ) by {
                        if done {
                            assert(log + pass =~= log.push(pass[0]));
                        } else {
                            assert(log + pass =~= log);
                        }
                    }
                }
                if done {
                    Action::Nil
                } else {
                    Action::Write(address, expr)
                }
            },
            Action::Nil => {
                proof {
                    assert forall|earlier: C, log: Seq<(VersionedAddress, ValueView)>| #[trigger]
                        old(ctx).writes_since(&earlier, log) implies ctx.writes_since(
                        &earlier,
                        log + Seq::<(VersionedAddress, ValueView)>::empty(),
                    ) by {
                        assert(log + Seq::<(VersionedAddress, ValueView)>::empty() =~= log);
                    }
                }
                Action::Nil
            },
        }
    }

    /// Evaluates this action as far as `ctx` allows: see [`ActionView::run`]
    /// and [`ActionView::written`].
    ///
    /// When `self` is [`Action::Nil`], nothing is left to do.
    pub fn eval<C: ActionEvalContext>(&mut self, ctx: &mut C)
        ensures
            final(self)@ == old(self)@.run(
                |a: VersionedAddress| old(ctx).known(a),
                |a: VersionedAddress| old(ctx).writable(a),
            ).0,
            forall|a: VersionedAddress|
                #[trigger] final(ctx).known(a) == (old(self)@.run(
                    |a: VersionedAddress| old(ctx).known(a),
                    |a: VersionedAddress| old(ctx).writable(a),
                ).1)(a),
            forall|a: VersionedAddress| #[trigger] final(ctx).writable(a) == old(ctx).writable(a),
            forall|earlier: C, log: Seq<(VersionedAddress, ValueView)>| #[trigger]
                old(ctx).writes_since(&earlier, log) ==> final(ctx).writes_since(
                    &earlier,
                    log + old(self)@.written(
                        |a: VersionedAddress| old(ctx).known(a),
                        |a: VersionedAddress| old(ctx).writable(a),
                    ),
                ),
    {
        let mut action = Action::Nil;
        core::mem::swap(self, &mut action);
        *self = action.evaluated(ctx);
    }

    /// Walks the action and appends to `visited` each node that it writes, in
    /// order. All of them are marked as definite: an action has no branches.
    pub fn visit_writes<'a>(&'a self, visited: &mut Vec<(&'a VersionedAddress, bool)>)
        ensures
            visited_reads(old(visited)@, final(visited)@, self@.writes(), true),
        decreases self,
    {
        match self {
            Action::Then(first, second) => {
                first.visit_writes(visited);
                let ghost mid = visited@;
                second.visit_writes(visited);
                proof {
                    lemma_visited_twice(
                        old(visited)@,
                        mid,
                        visited@,
                        first@.writes(),
                        second@.writes(),
                        true,
                    );
                }
            },
            Action::Write(address, _) => {
                visited.push((address, true));
            },
            Action::Nil => {},
        }
    }

    /// Walks the action and appends to `visited` each node that it reads, in
    /// order.
    pub fn visit_reads<'a>(&'a self, visited: &mut Vec<(&'a VersionedAddress, bool)>)
        ensures
            visited_reads(old(visited)@, final(visited)@, self@.reads(), true),
        decreases self,
    {
        match self {
            Action::Then(first, second) => {
                first.visit_reads(visited);
                let ghost mid = visited@;
                second.visit_reads(visited);
                proof {
                    lemma_visited_twice(
                        old(visited)@,
                        mid,
                        visited@,
                        first@.reads(),
                        second@.reads(),
                        true,
                    );
                }
            },
            Action::Write(_, expr) => {
                expr.visit_reads(visited);
            },
            Action::Nil => {},
        }
    }
}

/// What is known of the nodes that an upgrade reads.
pub type Findings = spec_fn(Ident) -> Option<ValueView>;

/// The reads `reads`, each marked with `definite`.
pub open spec fn marked<I>(reads: Seq<I>, definite: bool) -> Seq<(I, bool)> {
    Seq::new(reads.len(), |k: int| (reads[k], definite))
}

/// Whether `after` is `before` followed by the marked identifiers of `reads`,
/// in order.
pub open spec fn visited_marked<I>(
    before: Seq<(&I, bool)>,
    after: Seq<(&I, bool)>,
    reads: Seq<(I, bool)>,
) -> bool {
    &&& after.len() == before.len() + reads.len()
    &&& forall|k: int| 0 <= k < before.len() ==> after[k] == before[k]
    &&& forall|k: int|
        0 <= k < reads.len() ==> *(#[trigger] after[before.len() + k]).0 == reads[k].0 && after[
            before.len() + k].1 == reads[k].1
}

/// Whether `after` is `before` followed by the addresses of `targets`, in
/// order.
pub open spec fn visited_targets(
    before: Seq<&VersionedAddress>,
    after: Seq<&VersionedAddress>,
    targets: Seq<VersionedAddress>,
) -> bool {
    &&& after.len() == before.len() + targets.len()
    &&& forall|k: int| 0 <= k < before.len() ==> after[k] == before[k]
    &&& forall|k: int| 0 <= k < targets.len() ==> *(#[trigger] after[before.len() + k]) == targets[k]
}

impl UpgradeView {
    /// The upgrade, the findings and what is staged after one pass of
    /// evaluation that starts with the findings `known` and with `staged`
    /// staged. A variable is staged once its expression has become a value,
    /// and is read as that value from then on. A definition is staged as it
    /// is, and is read as what its expression evaluates to at that moment. A
    /// deletion is staged, and the node cannot be read from then on. Of a
    /// sequence the second upgrade is taken up once nothing is left of the
    /// first.
    pub open spec fn run(self, known: Findings, staged: Seq<Staged>) -> (
        UpgradeView,
        Findings,
        Seq<Staged>,
    )
        decreases self,
    {
        match self {
            UpgradeView::Then(first, second) => {
                let (left, findings, log) = first.run(known, staged);
                if left is Nil {
                    second.run(findings, log)
                } else {
                    (UpgradeView::Then(Box::new(left), second), findings, log)
                }
            },
            UpgradeView::Var(ident, expr) => {
                let reduced = expr.reduce(known);
                if reduced is Value {
                    (
                        UpgradeView::Nil,
                        |i: Ident|
                            if i@ == ident@ {
                                Some(reduced->Value_0)
                            } else {
                                known(i)
                            },
                        staged.push(Staged::Var(ident, reduced->Value_0)),
                    )
                } else {
                    (UpgradeView::Var(ident, reduced), known, staged)
                }
            },
            UpgradeView::Def(ident, expr) => (
                UpgradeView::Nil,
                |i: Ident|
                    if i@ == ident@ {
                        match expr.reduce(known) {
                            ExprView::Value(value) => Some(value),
                            _ => None,
                        }
                    } else {
                        known(i)
                    },
                staged.push(Staged::Def(ident, expr)),
            ),
            UpgradeView::Del(address) => (
                UpgradeView::Nil,
                |i: Ident|
                    if i@ == Ident::Existing(address)@ {
                        None
                    } else {
                        known(i)
                    },
                staged.push(Staged::Del(address)),
            ),
            UpgradeView::Nil => (UpgradeView::Nil, known, staged),
        }
    }

    /// The existing nodes that the upgrade changes or deletes, in order.
    pub open spec fn targets(self) -> Seq<VersionedAddress>
        decreases self,
    {
        match self {
            UpgradeView::Then(first, second) => first.targets() + second.targets(),
            UpgradeView::Var(Ident::Existing(address), _) => seq![address],
            UpgradeView::Def(Ident::Existing(address), _) => seq![address],
            UpgradeView::Del(address) => seq![address],
            _ => Seq::empty(),
        }
    }

    /// The nodes that the upgrade reads, in order. The reads of the value of
    /// a variable are definite: the upgrade needs them to go on. The reads of
    /// the expression of a definition are not.
    pub open spec fn reads(self) -> Seq<(Ident, bool)>
        decreases self,
    {
        match self {
            UpgradeView::Then(first, second) => first.reads() + second.reads(),
            UpgradeView::Var(_, expr) => marked(expr.reads(), true),
            UpgradeView::Def(_, expr) => marked(expr.reads(), false),
            _ => Seq::empty(),
        }
    }
}

/// Visiting one thing after another visits what the two hold, in order.
pub proof fn lemma_visited_marked_twice<I>(
    before: Seq<(&I, bool)>,
    mid: Seq<(&I, bool)>,
    after: Seq<(&I, bool)>,
    first: Seq<(I, bool)>,
    second: Seq<(I, bool)>,
)
    requires
        visited_marked(before, mid, first),
        visited_marked(mid, after, second),
    ensures
        visited_marked(before, after, first + second),
{
    assert forall|k: int| 0 <= k < (first + second).len() implies *(#[trigger] after[before.len()
        + k]).0 == (first + second)[k].0 && after[before.len() + k].1 == (first + second)[k].1 by {
        if k < first.len() {
            assert(after[before.len() + k] == mid[before.len() + k]);
        } else {
            assert(after[mid.len() + (k - first.len())].1 == second[k - first.len()].1);
        }
    }
}

impl Upgrade {
    /// Evaluates the upgrade by value.
    fn evaluated<C: UpgradeEvalContext>(self, ctx: &mut C) -> (left: Upgrade)
        ensures
            left@ == self@.run(|i: Ident| old(ctx).known(i), old(ctx).staged()).0,
            forall|i: Ident|
                #[trigger] final(ctx).known(i) == (self@.run(
                    |i: Ident| old(ctx).known(i),
                    old(ctx).staged(),
                ).1)(i),
            final(ctx).staged() == self@.run(|i: Ident| old(ctx).known(i), old(ctx).staged()).2,
            forall|earlier: C| #[trigger] earlier.grows(old(ctx)) ==> earlier.grows(final(ctx)),
        decreases self,
    {
        let ghost known = |i: Ident| old(ctx).known(i);
        match self {
            Upgrade::Then(first, second) => {
                let left = (*first).evaluated(ctx);
                let ghost findings = first@.run(known, old(ctx).staged()).1;
                let ghost mid = *ctx;
                proof {
                    assert((|i: Ident| ctx.known(i)) =~= findings);
                }
                match left {
                    Upgrade::Nil => {
                        let rest = (*second).evaluated(ctx);
                        proof {
                            assert forall|earlier: C| #[trigger]
                                earlier.grows(old(ctx)) implies earlier.grows(&*ctx) by {
                                assert(earlier.grows(&mid));
                            }
                        }
                        rest
                    },
                    other => Upgrade::Then(Box::new(other), second),
                }
            },
            Upgrade::Var(ident, expr) => {
                let mut expr = expr;
                expr.eval(&*ctx);
                proof {
                    assert((|i: Ident| ctx.known(i)) =~= known);
                }
                match expr {
                    Expr::Value(value) => {
                        ctx.var(ident, value);
                        Upgrade::Nil
                    },
                    other => Upgrade::Var(ident, other),
                }
            },
            Upgrade::Def(ident, expr) => {
                proof {
                    assert((|j: Ident| ctx.known(j)) =~= known);
                }
                ctx.def(ident, expr);
                Upgrade::Nil
            },
            Upgrade::Del(address) => {
                ctx.del(address);
                Upgrade::Nil
            },
            Upgrade::Nil => Upgrade::Nil,
        }
    }

    /// Evaluates this upgrade as far as `ctx` allows: see [`UpgradeView::run`].
    ///
    /// When `self` is [`Upgrade::Nil`], nothing is left to do.
    pub fn eval<C: UpgradeEvalContext>(&mut self, ctx: &mut C)
        ensures
            final(self)@ == old(self)@.run(|i: Ident| old(ctx).known(i), old(ctx).staged()).0,
            forall|i: Ident|
                #[trigger] final(ctx).known(i) == (old(self)@.run(
                    |i: Ident| old(ctx).known(i),
                    old(ctx).staged(),
                ).1)(i),
            final(ctx).staged() == old(self)@.run(|i: Ident| old(ctx).known(i), old(ctx).staged()).2,
            forall|earlier: C| #[trigger] earlier.grows(old(ctx)) ==> earlier.grows(final(ctx)),
    {
        let mut upgrade = Upgrade::Nil;
        core::mem::swap(self, &mut upgrade);
        *self = upgrade.evaluated(ctx);
    }

    /// Walks the upgrade and appends to `visited` each existing node that it
    /// changes or deletes, in order.
    pub fn visit_upgrades<'a>(&'a self, visited: &mut Vec<&'a VersionedAddress>)
        ensures
            visited_targets(old(visited)@, final(visited)@, self@.targets()),
        decreases self,
    {
        match self {
            Upgrade::Then(first, second) => {
                first.visit_upgrades(visited);
                let ghost mid = visited@;
                second.visit_upgrades(visited);
                proof {
                    let before = old(visited)@;
                    let all = first@.targets() + second@.targets();
                    assert forall|k: int| 0 <= k < all.len() implies *(#[trigger] visited@[before.len()
                        + k]) == all[k] by {
                        if k < first@.targets().len() {
                            assert(visited@[before.len() + k] == mid[before.len() + k]);
                        } else {
                            assert(*visited@[mid.len() + (k - first@.targets().len())]
                                == second@.targets()[k - first@.targets().len()]);
                        }
                    }
                }
            },
            Upgrade::Var(Ident::Existing(address), _) => {
                visited.push(address);
            },
            Upgrade::Def(Ident::Existing(address), _) => {
                visited.push(address);
            },
            Upgrade::Del(address) => {
                visited.push(address);
            },
            _ => {},
        }
    }

    /// Walks the upgrade and appends to `visited` each node that it reads,
    /// in order, marked as definite or not: see [`UpgradeView::reads`].
    pub fn visit_reads<'a>(&'a self, visited: &mut Vec<(&'a Ident, bool)>)
        ensures
            visited_marked(old(visited)@, final(visited)@, self@.reads()),
        decreases self,
    {
        match self {
            Upgrade::Then(first, second) => {
                first.visit_reads(visited);
                let ghost mid = visited@;
                second.visit_reads(visited);
                proof {
                    lemma_visited_marked_twice(
                        old(visited)@,
                        mid,
                        visited@,
                        first@.reads(),
                        second@.reads(),
                    );
                }
            },
            Upgrade::Var(_, expr) => {
                expr.visit_reads_as(true, visited);
            },
            Upgrade::Def(_, expr) => {
                expr.visit_reads_as(false, visited);
            },
            _ => {},
        }
    }
}

/// Visiting one thing after another visits what the two hold, in order.
pub proof fn lemma_visited_twice<I>(
    before: Seq<(&I, bool)>,
    mid: Seq<(&I, bool)>,
    after: Seq<(&I, bool)>,
    first: Seq<I>,
    second: Seq<I>,
    definite: bool,
)
    requires
        visited_reads(before, mid, first, definite),
        visited_reads(mid, after, second, definite),
    ensures
        visited_reads(before, after, first + second, definite),
{
    assert forall|k: int| 0 <= k < (first + second).len() implies *(#[trigger] after[before.len()
        + k]).0 == (first + second)[k] && after[before.len() + k].1 == definite by {
        if k < first.len() {
            assert(after[before.len() + k] == mid[before.len() + k]);
        } else {
            assert(after[mid.len() + (k - first.len())].1 == definite);
        }
    }
}

impl<I> ExprView<I> {
    /// The expression after one pass of evaluation: every read whose value is
    /// known is replaced by that value, and every tuple whose items have all
    /// become values becomes the tuple of those values.
    pub open spec fn reduce(self, known: spec_fn(I) -> Option<ValueView>) -> ExprView<I>
        decreases self,
    {
        match self {
            ExprView::Tuple(items) => {
                let reduced = Self::reduce_each(items, known);
                if forall|i: int| 0 <= i < reduced.len() ==> (#[trigger] reduced[i]) is Value {
                    ExprView::Value(
                        ValueView::Tuple(Seq::new(reduced.len(), |i: int| reduced[i]->Value_0)),
                    )
                } else {
                    ExprView::Tuple(reduced)
                }
            },
            ExprView::Read(ident) => match known(ident) {
                Some(value) => ExprView::Value(value),
                None => ExprView::Read(ident),
            },
            ExprView::Value(value) => ExprView::Value(value),
        }
    }

    /// Each expression of `items` after one pass of evaluation.
    pub open spec fn reduce_each(
        items: Seq<ExprView<I>>,
        known: spec_fn(I) -> Option<ValueView>,
    ) -> Seq<ExprView<I>>
        decreases items,
    {
        Seq::new(
            items.len(),
            |i: int|
                if 0 <= i < items.len() {
                    items[i].reduce(known)
                } else {
                    ExprView::Value(ValueView::Integer(0))
                },
        )
    }

    /// The identifiers that the expression still reads, from left to right.
    pub open spec fn reads(self) -> Seq<I>
        decreases self, 0nat,
    {
        match self {
            ExprView::Tuple(items) => Self::reads_of_first(items, items.len()),
            ExprView::Read(ident) => seq![ident],
            ExprView::Value(_) => Seq::empty(),
        }
    }

    /// The reads of the first `n` expressions of `items`, from left to right.
    pub open spec fn reads_of_first(items: Seq<ExprView<I>>, n: nat) -> Seq<I>
        decreases items, n,
    {
        if n == 0 || n > items.len() {
            Seq::empty()
        } else {
            Self::reads_of_first(items, (n - 1) as nat) + items[n - 1].reads()
        }
    }
}

/// Whether `after` is `before` followed by the identifiers of `reads`, in
/// order, each marked with `definite`.
pub open spec fn visited_reads<I>(
    before: Seq<(&I, bool)>,
    after: Seq<(&I, bool)>,
    reads: Seq<I>,
    definite: bool,
) -> bool {
    &&& after.len() == before.len() + reads.len()
    &&& forall|k: int| 0 <= k < before.len() ==> after[k] == before[k]
    &&& forall|k: int|
        0 <= k < reads.len() ==> *(#[trigger] after[before.len() + k]).0 == reads[k] && after[
            before.len() + k].1 == definite
}

impl<I> Expr<I> {
    /// Walks the expression and appends to `visited` each identifier that it
    /// reads, from left to right. All of them are marked as definite: an
    /// expression reads whatever it names.
    pub fn visit_reads<'a>(&'a self, visited: &mut Vec<(&'a I, bool)>)
        ensures
            visited_reads(old(visited)@, final(visited)@, self@.reads(), true),
    {
        self.visit_reads_as(true, visited)
    }

    /// As [`Expr::visit_reads`], with every identifier marked with `definite`.
    pub fn visit_reads_as<'a>(&'a self, definite: bool, visited: &mut Vec<(&'a I, bool)>)
        ensures
            visited_reads(old(visited)@, final(visited)@, self@.reads(), definite),
        decreases self,
    {
        match self {
            Expr::Tuple(items) => {
                let ghost inner = self@->Tuple_0;
                let mut i: usize = 0;
                while i < items.len()
                    invariant
                        *self == Expr::Tuple(*items),
                        inner == self@->Tuple_0,
                        i <= items.len(),
                        visited_reads(
                            old(visited)@,
                            visited@,
                            ExprView::reads_of_first(inner, i as nat),
                            definite,
                        ),
                    decreases items.len() - i,
                {
                    proof {
                        vstd::std_specs::vec::axiom_vec_index_decreases(*items, i as int);
                        assert(decreases_to!(self => self->Tuple_0));
                        assert(inner[i as int] == items@[i as int]@);
                    }
                    let ghost mid = visited@;
                    items[i].visit_reads_as(definite, visited);
                    i += 1;
                    proof {
                        let done = ExprView::reads_of_first(inner, (i - 1) as nat);
                        let more = inner[i - 1].reads();
                        assert(ExprView::reads_of_first(inner, i as nat) == done + more);
                        assert forall|k: int| 0 <= k < (done + more).len() implies *(
                        #[trigger] visited@[old(visited)@.len() + k]).0 == (done + more)[k]
                            && visited@[old(visited)@.len() + k].1 == definite by {
                            if k < done.len() {
                                assert(visited@[old(visited)@.len() + k] == mid[old(visited)@.len()
                                    + k]);
                            } else {
                                assert(visited@[mid.len() + (k - done.len())].1 == definite);
                            }
                        }
                    }
                }
            },
            Expr::Read(ident) => {
                visited.push((ident, definite));
            },
            Expr::Value(_) => {},
        }
    }

    /// The value of this expression, where `ctx` knows all that the
    /// expression reads. The expression itself stays as it is.
    pub fn value_in<C: ExprEvalContext<I>>(&self, ctx: &C) -> (value: Option<Value>)
        ensures
            match self@.reduce(|ident: I| ctx.known(ident)) {
                ExprView::Value(v) => value matches Some(x) && x@ == v,
                _ => value is None,
            },
        decreases self,
    {
        let ghost known = |ident: I| ctx.known(ident);
        match self {
            Expr::Tuple(items) => {
                let ghost inner = self@->Tuple_0;
                let mut values: Vec<Value> = Vec::new();
                let mut i: usize = 0;
                while i < items.len()
                    invariant
                        *self == Expr::Tuple(*items),
                        inner == self@->Tuple_0,
                        known == |ident: I| ctx.known(ident),
                        i <= items.len(),
                        values@.len() == i,
                        forall|j: int|
                            0 <= j < i ==> (#[trigger] inner[j].reduce(known)) is Value
                                && values@[j]@ == inner[j].reduce(known)->Value_0,
                    decreases items.len() - i,
                {
                    proof {
                        vstd::std_specs::vec::axiom_vec_index_decreases(*items, i as int);
                        assert(decreases_to!(self => self->Tuple_0));
                        assert(inner[i as int] == items@[i as int]@);
                    }
                    match items[i].value_in(ctx) {
                        Some(value) => {
                            values.push(value);
                        },
                        None => {
                            proof {
                                let each = ExprView::reduce_each(inner, known);
                                assert(!(each[i as int] is Value));
                            }
                            return None;
                        },
                    }
                    i += 1;
                }
                let done = Value::Tuple(values);
                proof {
                    let each = ExprView::reduce_each(inner, known);
                    assert forall|j: int| 0 <= j < each.len() implies (#[trigger] each[j]) is Value by {
                        assert(inner[j].reduce(known) is Value);
                    }
                    let r = self@.reduce(known);
                    assert(r is Value);
                    assert(r->Value_0 is Tuple);
                    assert(done@->Tuple_0.len() == each.len());
                    assert forall|j: int| 0 <= j < each.len() implies done@->Tuple_0[j]
                        == each[j]->Value_0 by {
                        assert(each[j] == inner[j].reduce(known));
                    }
                    assert(r->Value_0->Tuple_0 =~= done@->Tuple_0);
                }
                Some(done)
            },
            Expr::Read(ident) => {
                match ctx.read(ident) {
                    Some(value) => Some(value.clone()),
                    None => None,
                }
            },
            Expr::Value(value) => Some(value.clone()),
        }
    }

    /// Evaluates this expression as far as `ctx` allows.
    ///
    /// Once `self` is an [`Expr::Value`], nothing more is done.
    pub fn eval<C: ExprEvalContext<I>>(&mut self, ctx: &C)
        ensures
            final(self)@ == old(self)@.reduce(|ident: I| ctx.known(ident)),
        decreases *old(self),
    {
        let ghost known = |ident: I| ctx.known(ident);
        let ghost start = *self;
        match self {
            Expr::Tuple(items) => {
                let ghost before = *items;
                let mut all_values = true;
                let mut i: usize = 0;
                while i < items.len()
                    invariant
                        start == Expr::Tuple(before),
                        i <= items.len(),
                        items.len() == before.len(),
                        known == |ident: I| ctx.known(ident),
                        start == *old(self),
                        forall|j: int| 0 <= j < i ==> items@[j]@ == before@[j]@.reduce(known),
                        forall|j: int| i <= j < items.len() ==> items@[j] == before@[j],
                        all_values == forall|j: int| 0 <= j < i ==> (#[trigger] items@[j]@) is Value,
                    decreases items.len() - i,
                {
                    proof {
                        vstd::std_specs::vec::axiom_vec_index_decreases(before, i as int);
                        assert(decreases_to!(start => start->Tuple_0));
                    }
                    let ghost prior = *items;
                    items[i].eval(ctx);
                    match &items[i] {
                        Expr::Value(_) => {},
                        _ => {
                            all_values = false;
                        },
                    }
                    proof {
                        assert(items@[i as int]@ is Value <==> items@[i as int] is Value);
                        assert forall|j: int| 0 <= j < i implies items@[j] == prior@[j] by {}
                    }
                    i += 1;
                }
                let ghost inner = start@->Tuple_0;
                proof {
                    assert(inner.len() == before@.len());
                    assert forall|j: int| 0 <= j < before@.len() implies inner[j].reduce(known)
                        == items@[j]@ by {
                        assert(inner[j] == before@[j]@);
                    }
                }
                if all_values {
                    let mut values: Vec<Value> = Vec::new();
                    let mut k: usize = 0;
                    while k < items.len()
                        invariant
                            k <= items.len(),
                            values@.len() == k,
                            forall|j: int| 0 <= j < items.len() ==> (#[trigger] items@[j]@) is Value,
                            forall|j: int| 0 <= j < k ==> values@[j]@ == items@[j]@->Value_0,
                        decreases items.len() - k,
                    {
                        match &items[k] {
                            Expr::Value(value) => {
                                values.push(value.clone());
                            },
                            _ => {
                                assert(items@[k as int]@ is Value);
                                assert(false);
                            },
                        }
                        k += 1;
                    }
                    let done = Expr::Value(Value::Tuple(values));
                    proof {
                        let each = ExprView::reduce_each(inner, known);
                        assert forall|j: int| 0 <= j < each.len() implies (#[trigger] each[j]) is Value by {
                            assert(items@[j]@ is Value);
                        }
                        let r = start@.reduce(known);
                        assert(r is Value);
                        assert(r->Value_0 is Tuple);
                        assert(r->Value_0->Tuple_0 =~= done@->Value_0->Tuple_0);
                    }
                    *self = done;
                } else {
                    proof {
                        let j = choose|j: int| 0 <= j < items.len() && !((#[trigger] items@[j]@) is Value);
                        let each = ExprView::reduce_each(inner, known);
                        assert(!(each[j] is Value));
                        let r = start@.reduce(known);
                        assert(r is Tuple);
                        assert(r->Tuple_0 =~= Expr::Tuple(*items)@->Tuple_0);
                    }
                }
            },
            Expr::Read(ident) => {
                match ctx.read(ident) {
                    Some(value) => {
                        *self = Expr::Value(value.clone());
                    },
                    None => {},
                }
            },
            Expr::Value(_) => {},
        }
    }
}

} // verus!
