//! How an upgrade is committed: what has to be told to the nodes that exist,
//! and which nodes have to be spawned.

use crate::actor::{Address, Context, Envelope, Version, VersionedAddress};
use crate::address_map::{AddressMap, AddressSet};
use crate::directory::{registered, with_node, Directory, Entries};
use crate::expr::{Expr, ExprView, Ident, Name, Value};
use crate::message::{
    BasisStamp, InputMetadata, Message, NodeKind, ReactiveConfiguration, StampedValue, TxId,
};
use crate::reactive::{Host, Reactive};
use crate::transaction::{released_with, sent_by, HeldLock, StagedNode, TransactionError};
use vstd::prelude::*;

verus! {

/// The address that `ident` stands for, where the nodes that the upgrade
/// creates have the names and addresses `created`: that of an existing node
/// is its own, and that of a new node is the one that it was last created
/// at.
pub open spec fn address_of(created: Seq<(Name, Address)>, ident: Ident) -> Option<Address>
    decreases created.len(),
{
    match ident {
        Ident::Existing(node) => Some(node.address),
        Ident::New(name) => if created.len() == 0 {
            None
        } else if created.last().0@ == name@ {
            Some(created.last().1)
        } else {
            address_of(created.drop_last(), ident)
        },
    }
}

impl ExprView<Ident> {
    /// The expression with each identifier replaced by the address that it
    /// stands for; `None` where some identifier stands for none.
    pub open spec fn resolved(self, created: Seq<(Name, Address)>) -> Option<ExprView<Address>>
        decreases self,
    {
        match self {
            ExprView::Tuple(items) => {
                let each = Self::resolved_each(items, created);
                if forall|i: int| 0 <= i < each.len() ==> (#[trigger] each[i]) is Some {
                    Some(ExprView::Tuple(Seq::new(each.len(), |i: int| each[i]->Some_0)))
                } else {
                    None
                }
            },
            ExprView::Read(ident) => match address_of(created, ident) {
                Some(address) => Some(ExprView::Read(address)),
                None => None,
            },
            ExprView::Value(value) => Some(ExprView::Value(value)),
        }
    }

    /// Each expression of `items`, resolved.
    pub open spec fn resolved_each(items: Seq<ExprView<Ident>>, created: Seq<(Name, Address)>) -> Seq<
        Option<ExprView<Address>>,
    >
        decreases items,
    {
        Seq::new(
            items.len(),
            |i: int|
                if 0 <= i < items.len() {
                    items[i].resolved(created)
                } else {
                    None
                },
        )
    }
}

/// The address that `ident` stands for: see [`address_of`].
pub fn lookup(created: &Vec<(Name, Address)>, ident: &Ident) -> (address: Option<Address>)
    ensures
        address == address_of(created@, *ident),
{
    match ident {
        Ident::Existing(node) => Some(node.address),
        Ident::New(name) => {
            let mut i: usize = created.len();
            proof {
                assert(created@.take(i as int) =~= created@);
            }
            while i > 0
                invariant
                    i <= created@.len(),
                    *ident == Ident::New(*name),
                    address_of(created@, *ident) == address_of(created@.take(i as int), *ident),
                decreases i,
            {
                i -= 1;
                proof {
                    assert(created@.take(i + 1).drop_last() =~= created@.take(i as int));
                    assert(created@.take(i + 1).last() == created@[i as int]);
                }
                if created[i].0.same(name) {
                    return Some(created[i].1);
                }
            }
            None
        },
    }
}

/// The expression `expr` with each identifier replaced by the address that
/// it stands for: see [`ExprView::resolved`].
pub fn resolve(expr: &Expr<Ident>, created: &Vec<(Name, Address)>) -> (out: Option<Expr<Address>>)
    ensures
        match out {
            Some(resolved) => expr@.resolved(created@) == Some(resolved@),
            None => expr@.resolved(created@) is None,
        },
    decreases expr,
{
    match expr {
        Expr::Tuple(items) => {
            let ghost inner = expr@->Tuple_0;
            let mut resolved: Vec<Expr<Address>> = Vec::new();
            let mut i: usize = 0;
            while i < items.len()
                invariant
                    *expr == Expr::Tuple(*items),
                    inner == expr@->Tuple_0,
                    i <= items.len(),
                    resolved@.len() == i,
                    forall|j: int|
                        0 <= j < i ==> (#[trigger] inner[j].resolved(created@)) == Some(
                            resolved@[j]@,
                        ),
                decreases items.len() - i,
            {
                proof {
                    vstd::std_specs::vec::axiom_vec_index_decreases(*items, i as int);
                    assert(decreases_to!(expr => expr->Tuple_0));
                    assert(inner[i as int] == items@[i as int]@);
                }
                match resolve(&items[i], created) {
                    Some(item) => {
                        resolved.push(item);
                    },
                    None => {
                        proof {
                            let each = ExprView::resolved_each(inner, created@);
                            assert(!(each[i as int] is Some));
                        }
                        return None;
                    },
                }
                i += 1;
            }
            let out = Expr::Tuple(resolved);
            proof {
                let each = ExprView::resolved_each(inner, created@);
                assert forall|j: int| 0 <= j < each.len() implies (#[trigger] each[j]) is Some by {
                    assert(inner[j].resolved(created@) is Some);
                }
                assert(out@->Tuple_0 =~= Seq::new(each.len(), |j: int| each[j]->Some_0)) by {
                    assert forall|j: int| 0 <= j < each.len() implies out@->Tuple_0[j]
                        == each[j]->Some_0 by {
                        assert(inner[j].resolved(created@) == Some(resolved@[j]@));
                    }
                }
            }
            Some(out)
        },
        Expr::Read(ident) => {
            match lookup(created, ident) {
                Some(address) => Some(Expr::Read(address)),
                None => None,
            }
        },
        Expr::Value(value) => Some(Expr::Value(value.clone())),
    }
}

/// One step of the commit of an upgrade.
#[derive(Debug, PartialEq, Eq)]
pub enum Plan {
    /// The node at the address is told to retire.
    Retire(Address),
    /// The node at the address is told to take on the configuration.
    Reconfigure { address: Address, configuration: ReactiveConfiguration },
    /// A node with the configuration is spawned, which gets the address, and
    /// is then registered under the name.
    Create { name: Name, address: Address, configuration: ReactiveConfiguration },
}

impl Plan {
    /// Whether this step is what the commit owes to `staged`: a deletion is a
    /// retirement, and what is staged for an existing node is a new
    /// configuration for the node at its address; what is staged under a new
    /// name is the creation of a node of that name. A variable is configured
    /// with its staged value, not stamped yet, and a definition as a
    /// definition.
    pub open spec fn carries_out(&self, staged: StagedNode) -> bool {
        match staged {
            StagedNode::Del(node) => *self == Plan::Retire(node.address),
            StagedNode::Var(Ident::Existing(node), value) => {
                &&& *self matches Plan::Reconfigure { address, configuration }
                &&& address == node.address
                &&& configuration matches ReactiveConfiguration::Variable { value: first }
                &&& first.value@ == value@
                &&& first.basis@ == Map::<Address, nat>::empty()
            },
            StagedNode::Var(Ident::New(wanted), value) => {
                &&& *self matches Plan::Create { name, configuration, .. }
                &&& name@ == wanted@
                &&& configuration matches ReactiveConfiguration::Variable { value: first }
                &&& first.value@ == value@
                &&& first.basis@ == Map::<Address, nat>::empty()
            },
            StagedNode::Def(Ident::Existing(node), _, _) => {
                &&& *self matches Plan::Reconfigure { address, configuration }
                &&& address == node.address
                &&& configuration is Definition
            },
            StagedNode::Def(Ident::New(wanted), _, _) => {
                &&& *self matches Plan::Create { name, configuration, .. }
                &&& name@ == wanted@
                &&& configuration is Definition
            },
        }
    }
}

/// What the commit of an upgrade has to do.
#[derive(Debug, PartialEq, Eq)]
pub struct Blueprint {
    /// The steps, in the order in which the upgrade staged them.
    pub plans: Vec<Plan>,
    /// For each definition that the upgrade makes, and each existing node
    /// that it reads: the node, and the definition that subscribes to it.
    pub subscriptions: Vec<(Address, Address)>,
    /// For each definition that the upgrade makes, and each new node that it
    /// reads: the node, and the definition that is its subscriber from the
    /// start.
    pub first_subscribers: Vec<(Address, Address)>,
}

impl Plan {
    /// The node that the step gives a configuration, with the configuration.
    pub open spec fn configured(&self) -> Option<(Address, ReactiveConfiguration)> {
        match *self {
            Plan::Retire(_) => None,
            Plan::Reconfigure { address, configuration } => Some((address, configuration)),
            Plan::Create { address, configuration, .. } => Some((address, configuration)),
        }
    }
}

/// The names and addresses of the nodes that the steps `plans` create, in
/// order.
pub open spec fn names_of(plans: Seq<Plan>) -> Seq<(Name, Address)>
    decreases plans.len(),
{
    if plans.len() == 0 {
        Seq::empty()
    } else {
        let earlier = names_of(plans.drop_last());
        match plans.last() {
            Plan::Create { name, address, .. } => earlier.push((name, address)),
            _ => earlier,
        }
    }
}

/// Whether `address` is one of the addresses of `created`.
pub open spec fn is_new(created: Seq<(Name, Address)>, address: Address) -> bool {
    exists|i: int| 0 <= i < created.len() && (#[trigger] created[i]).1 == address
}

/// The addresses of `reads` without repetition, each where it occurs first.
pub open spec fn distinct(reads: Seq<Address>) -> Seq<Address>
    decreases reads.len(),
{
    if reads.len() == 0 {
        Seq::empty()
    } else {
        let earlier = distinct(reads.drop_last());
        if earlier.contains(reads.last()) {
            earlier
        } else {
            earlier.push(reads.last())
        }
    }
}

/// The variables that some input of `inputs` derives from.
pub open spec fn joined(inputs: Seq<(Address, InputMetadata)>) -> Set<Address> {
    Set::new(
        |root: Address|
            exists|i: int|
                0 <= i < inputs.len() && (#[trigger] inputs[i]).1.ancestors@.contains(root),
    )
}

/// The variables that a node at `address` derives from once it has the
/// configuration `configuration`: a variable derives from itself, and a
/// definition from what its inputs derive from.
pub open spec fn derives_from(address: Address, configuration: ReactiveConfiguration) -> Set<
    Address,
> {
    match configuration {
        ReactiveConfiguration::Variable { .. } => set![address],
        ReactiveConfiguration::Definition { inputs, .. } => joined(inputs@),
    }
}

/// The variables that the node at `address` derives from after the steps
/// `before`: what the last step that configures the node makes of it, and
/// else what the lock on the node says. `None` for a node that no step
/// configures and that is not locked.
pub open spec fn ancestors_after(
    before: Seq<Plan>,
    locks: Map<Address, HeldLock>,
    address: Address,
) -> Option<Set<Address>>
    decreases before.len(),
{
    if before.len() == 0 {
        if locks.contains_key(address) {
            Some(
                match locks[address].node_kind {
                    NodeKind::Variable { .. } => set![address],
                    NodeKind::Definition { ancestors } => ancestors@,
                },
            )
        } else {
            None
        }
    } else {
        match before.last().configured() {
            Some((changed, configuration)) => if changed == address {
                Some(derives_from(address, configuration))
            } else {
                ancestors_after(before.drop_last(), locks, address)
            },
            None => ancestors_after(before.drop_last(), locks, address),
        }
    }
}

/// Whether the directory gives a node under `name`.
pub open spec fn name_taken(directory: Directory, name: Seq<char>) -> bool {
    &&& directory.state().nodes.contains_key(name)
    &&& registered(directory.node_order(name), directory.state().nodes[name]).len() > 0
}

/// Why the node `ident` cannot be made after the steps `before`, if it
/// cannot: a new name must be new to the upgrade and to the directory, and
/// there must be an address left for the node.
pub open spec fn name_refusal(
    ident: Ident,
    before: Seq<Plan>,
    directory: Directory,
    base: Address,
) -> Option<TransactionError> {
    match ident {
        Ident::Existing(_) => None,
        Ident::New(name) => if address_of(names_of(before), ident) is Some || name_taken(
            directory,
            name@,
        ) {
            Some(TransactionError::NameTaken)
        } else if base.index + creations(before) >= usize::MAX {
            Some(TransactionError::NoAddress)
        } else {
            None
        },
    }
}

/// Why `staged` cannot be carried out after the steps `before`, if it
/// cannot. A definition must read only nodes that exist and are locked, or
/// that the steps before it make.
pub open spec fn refusal(
    staged: StagedNode,
    before: Seq<Plan>,
    locks: Map<Address, HeldLock>,
    directory: Directory,
    base: Address,
) -> Option<TransactionError> {
    match staged {
        StagedNode::Del(_) => None,
        StagedNode::Var(ident, _) => name_refusal(ident, before, directory, base),
        StagedNode::Def(ident, expr, _) => match expr@.resolved(names_of(before)) {
            None => Some(TransactionError::Unresolved),
            Some(resolved) => if exists|k: int|
                0 <= k < resolved.reads().len() && ancestors_after(
                    before,
                    locks,
                    #[trigger] resolved.reads()[k],
                ) is None {
                Some(TransactionError::Unresolved)
            } else {
                name_refusal(ident, before, directory, base)
            },
        },
    }
}

/// Whether `step` is the step that `staged` asks for after the steps
/// `before`, where new nodes get the addresses from `base` on: it carries
/// `staged` out, a new node gets the next address, and a definition gets its
/// expression with each name replaced by the address of the node that the
/// steps before made under that name, and as inputs the nodes that the
/// expression reads, each once and with the variables that it derives from.
pub open spec fn fits(
    step: Plan,
    staged: StagedNode,
    before: Seq<Plan>,
    locks: Map<Address, HeldLock>,
    base: Address,
) -> bool {
    &&& step.carries_out(staged)
    &&& step matches Plan::Create { address, .. } ==> address.index == base.index + creations(
        before,
    )
    &&& staged matches StagedNode::Def(_, expr, _) ==> configures(
        step,
        expr@.resolved(names_of(before)),
        before,
        locks,
    )
}

/// Whether `step` makes a definition with the expression `wanted`, whose
/// inputs are the nodes that the expression reads: see [`fits`].
pub open spec fn configures(
    step: Plan,
    wanted: Option<ExprView<Address>>,
    before: Seq<Plan>,
    locks: Map<Address, HeldLock>,
) -> bool {
    &&& step.configured() matches Some((_, ReactiveConfiguration::Definition { expr, inputs }))
    &&& wanted == Some(expr@)
    &&& inputs@.len() == distinct(expr@.reads()).len()
    &&& forall|k: int|
        0 <= k < inputs@.len() ==> (#[trigger] inputs@[k]).0 == distinct(expr@.reads())[k]
            && ancestors_after(before, locks, inputs@[k].0) == Some(inputs@[k].1.ancestors@)
}

/// The first `n` inputs of `inputs`, each paired with `subscriber`: those
/// that `created` holds where `first` is set, and the others where it is
/// not.
pub open spec fn pairs(
    inputs: Seq<(Address, InputMetadata)>,
    n: nat,
    created: Seq<(Name, Address)>,
    subscriber: Address,
    first: bool,
) -> Seq<(Address, Address)>
    decreases n,
{
    if n == 0 || n > inputs.len() {
        Seq::empty()
    } else {
        let earlier = pairs(inputs, (n - 1) as nat, created, subscriber, first);
        if is_new(created, inputs[n - 1].0) == first {
            earlier.push((inputs[n - 1].0, subscriber))
        } else {
            earlier
        }
    }
}

/// For each definition that the steps `plans` make, in order, and each of
/// its inputs: the input and the definition. Where `first` is set these are
/// the inputs that earlier steps create, and else the others.
pub open spec fn subscribing(plans: Seq<Plan>, first: bool) -> Seq<(Address, Address)>
    decreases plans.len(),
{
    if plans.len() == 0 {
        Seq::empty()
    } else {
        let earlier = subscribing(plans.drop_last(), first);
        match plans.last().configured() {
            Some((address, ReactiveConfiguration::Definition { inputs, .. })) => earlier + pairs(
                inputs@,
                inputs@.len(),
                names_of(plans.drop_last()),
                address,
                first,
            ),
            _ => earlier,
        }
    }
}

/// Whether the steps `done` are the steps that the first nodes of `staged`
/// ask for, and the node after them cannot be carried out because of
/// `error`.
pub open spec fn stops(
    staged: Seq<StagedNode>,
    done: Seq<Plan>,
    locks: Map<Address, HeldLock>,
    directory: Directory,
    base: Address,
    error: TransactionError,
) -> bool {
    &&& done.len() < staged.len()
    &&& forall|k: int|
        0 <= k < done.len() ==> fits(#[trigger] done[k], staged[k], done.take(k), locks, base)
    &&& refusal(staged[done.len() as int], done, locks, directory, base) == Some(error)
}

/// Whether `blueprint` is what the commit of an upgrade that has staged
/// `staged` has to do: one step for each staged node, and the subscriptions
/// of the definitions that the steps make.
pub open spec fn planned(
    blueprint: Blueprint,
    staged: Seq<StagedNode>,
    locks: Map<Address, HeldLock>,
    directory: Directory,
    base: Address,
) -> bool {
    &&& blueprint.plans@.len() == staged.len()
    &&& forall|i: int|
        0 <= i < staged.len() ==> fits(
            #[trigger] blueprint.plans@[i],
            staged[i],
            blueprint.plans@.take(i),
            locks,
            base,
        )
    &&& forall|i: int|
        0 <= i < staged.len() ==> refusal(
            #[trigger] staged[i],
            blueprint.plans@.take(i),
            locks,
            directory,
            base,
        ) is None
    &&& blueprint.subscriptions@ == subscribing(blueprint.plans@, false)
    &&& blueprint.first_subscribers@ == subscribing(blueprint.plans@, true)
}

/// There is an address for each node that the first `n` steps of a
/// blueprint create.
pub proof fn lemma_planned_has_room(
    blueprint: Blueprint,
    staged: Seq<StagedNode>,
    locks: Map<Address, HeldLock>,
    directory: Directory,
    base: Address,
    n: nat,
)
    requires
        planned(blueprint, staged, locks, directory, base),
        n <= staged.len(),
    ensures
        base.index + creations(blueprint.plans@.take(n as int)) <= usize::MAX,
    decreases n,
{
    let plans = blueprint.plans@;
    if n > 0 {
        lemma_planned_has_room(blueprint, staged, locks, directory, base, (n - 1) as nat);
        assert(plans.take(n as int).drop_last() =~= plans.take(n - 1));
        assert(plans.take(n as int).last() == plans[n - 1]);
        assert(fits(plans[n - 1], staged[n - 1], plans.take(n - 1), locks, base));
        assert(refusal(staged[n - 1], plans.take(n - 1), locks, directory, base) is None);
    }
}

/// The nodes of a directory once the first `n` of the nodes that the
/// creations `made` create were registered, in order, each under its name
/// and at its first version, where the nodes have the addresses from `base`
/// on.
pub open spec fn all_registered(
    nodes: Map<Seq<char>, Entries>,
    made: Seq<Plan>,
    base: nat,
    n: nat,
) -> Map<Seq<char>, Entries>
    decreases n,
{
    if n == 0 || n > made.len() {
        nodes
    } else {
        with_node(
            all_registered(nodes, made, base, (n - 1) as nat),
            made[n - 1]->Create_name@,
            VersionedAddress {
                address: Address { index: (base + n - 1) as usize },
                version: Version(0),
            },
        )
    }
}

/// Whether the directory `before` of the manager at `me` becomes `after` and
/// sends `sent` when the first `n` of the nodes that the creations `made`
/// create are registered, in order, each under its name and at its first
/// version, where the nodes have the addresses from `base` on: see
/// [`Directory::took_in`].
pub open spec fn registered_each(
    before: Directory,
    after: Directory,
    made: Seq<Plan>,
    base: nat,
    n: nat,
    me: Address,
    sent: Seq<Envelope>,
) -> bool
    decreases n,
{
    if n == 0 || n > made.len() {
        after == before && sent.len() == 0
    } else {
        exists|mid: Directory, cut: int|
            {
                &&& 0 <= cut <= sent.len()
                &&& registered_each(before, mid, made, base, (n - 1) as nat, me, sent.take(cut))
                &&& #[trigger] after.took_in(
                    mid,
                    made[n - 1]->Create_name@,
                    VersionedAddress {
                        address: Address { index: (base + n - 1) as usize },
                        version: Version(0),
                    },
                    me,
                    sent.skip(cut),
                )
            }
    }
}

/// Whether `after` is `before` once an upgrade was committed as `blueprint`
/// says: from the place `from` on, the messages that the steps owe were
/// sent, then the subscriptions, and then every lock on the nodes `held` was
/// released with the stamp `basis`; and the nodes that the steps create were
/// spawned, in order.
pub open spec fn committed<A: Host>(
    before: Context<A>,
    after: Context<A>,
    from: int,
    blueprint: Blueprint,
    txid: TxId,
    held: Seq<Address>,
    basis: Map<Address, nat>,
) -> bool {
    let me = before.spec_me();
    let told = plan_messages(blueprint.plans@, txid, me);
    let subscriptions = blueprint.subscriptions@;
    let made = created_by(blueprint.plans@);
    let sent = after.sent();
    let spawned = after.spawned().skip(before.spawned().len() as int);
    &&& before.sent().len() <= from
    &&& from + told.len() + subscriptions.len() + held.len() <= sent.len()
    &&& sent.subrange(from, from + told.len()) == told
    &&& forall|i: int|
        0 <= i < subscriptions.len() ==> is_subscription(
            #[trigger] sent[from + told.len() + i],
            me,
            subscriptions[i].0,
            subscriptions[i].1,
            txid,
        )
    &&& released_with(sent, from + told.len() + subscriptions.len(), me, held, txid, basis)
    &&& spawned.len() == made.len()
    &&& forall|i: int|
        0 <= i < made.len() ==> is_created_node(
            #[trigger] spawned[i],
            made[i],
            blueprint.first_subscribers@,
        )
}

/// Adds the members of `more` to `roots`.
fn add_all(roots: &mut AddressSet, more: &AddressSet)
    ensures
        final(roots)@ == old(roots)@.union(more@),
{
    let n = more.len();
    let mut j: usize = 0;
    while j < n
        invariant
            j <= n,
            n == more.members().len(),
            forall|root: Address|
                #![trigger roots@.contains(root)]
                roots@.contains(root) <==> old(roots)@.contains(root) || exists|m: int|
                    0 <= m < j && #[trigger] more.members()[m] == root,
        decreases n - j,
    {
        let ghost before = roots@;
        let member = more.member_at(j);
        let _ = roots.insert(member);
        proof {
            assert forall|root: Address|
                #![trigger roots@.contains(root)]
                roots@.contains(root) <==> old(roots)@.contains(root) || exists|m: int|
                    0 <= m < j + 1 && #[trigger] more.members()[m] == root by {
                if before.contains(root) && !old(roots)@.contains(root) {
                    let m = choose|m: int| 0 <= m < j && #[trigger] more.members()[m] == root;
                    assert(0 <= m < j + 1 && more.members()[m] == root);
                }
                if root == member {
                    assert(0 <= j < j + 1 && more.members()[j as int] == root);
                }
            }
        }
        j += 1;
    }
    proof {
        assert forall|root: Address| roots@.contains(root) <==> old(roots)@.union(more@).contains(
            root,
        ) by {
            if more@.contains(root) {
                let m = more.members().index_of(root);
                assert(more.members()[m] == root);
            }
            if exists|m: int| 0 <= m < j && #[trigger] more.members()[m] == root {
                assert(more.members().contains(root));
            }
        }
        assert(roots@ =~= old(roots)@.union(more@));
    }
}

/// The variables that a node at `address` derives from once it has the
/// configuration `configuration`.
fn roots_after(address: Address, configuration: &ReactiveConfiguration) -> (roots: AddressSet)
    ensures
        roots@ == derives_from(address, *configuration),
{
    let mut roots = AddressSet::new();
    match configuration {
        ReactiveConfiguration::Variable { .. } => {
            let _ = roots.insert(address);
            proof {
                assert(roots@ =~= set![address]);
            }
        },
        ReactiveConfiguration::Definition { inputs, .. } => {
            let mut k: usize = 0;
            while k < inputs.len()
                invariant
                    k <= inputs@.len(),
                    roots@ == joined(inputs@.take(k as int)),
                decreases inputs@.len() - k,
            {
                let ghost before = roots@;
                add_all(&mut roots, &inputs[k].1.ancestors);
                proof {
                    let more = inputs@.take(k + 1);
                    let fewer = inputs@.take(k as int);
                    assert forall|root: Address| roots@.contains(root) <==> joined(more).contains(
                        root,
                    ) by {
                        if before.contains(root) {
                            let i = choose|i: int|
                                0 <= i < fewer.len() && (#[trigger] fewer[i]).1.ancestors@.contains(
                                    root,
                                );
                            assert(more[i].1.ancestors@.contains(root));
                        }
                        if inputs@[k as int].1.ancestors@.contains(root) {
                            assert(more[k as int].1.ancestors@.contains(root));
                        }
                        if joined(more).contains(root) {
                            let i = choose|i: int|
                                0 <= i < more.len() && (#[trigger] more[i]).1.ancestors@.contains(
                                    root,
                                );
                            if i < k {
                                assert(fewer[i].1.ancestors@.contains(root));
                            }
                        }
                    }
                    assert(roots@ =~= joined(more));
                }
                k += 1;
            }
            proof {
                assert(inputs@.take(k as int) =~= inputs@);
            }
        },
    }
    roots
}

/// The variables that the node at `address` derives from after the steps
/// `plans`: see [`ancestors_after`].
fn ancestors_of(address: Address, plans: &Vec<Plan>, locks: &AddressMap<HeldLock>) -> (ancestors:
    Option<AddressSet>)
    ensures
        match ancestors {
            Some(found) => ancestors_after(plans@, locks@, address) == Some(found@),
            None => ancestors_after(plans@, locks@, address) is None,
        },
{
    let mut i: usize = plans.len();
    proof {
        assert(plans@.take(i as int) =~= plans@);
    }
    while i > 0
        invariant
            i <= plans@.len(),
            ancestors_after(plans@, locks@, address) == ancestors_after(
                plans@.take(i as int),
                locks@,
                address,
            ),
        decreases i,
    {
        i -= 1;
        proof {
            assert(plans@.take(i + 1).drop_last() =~= plans@.take(i as int));
            assert(plans@.take(i + 1).last() == plans@[i as int]);
        }
        match &plans[i] {
            Plan::Retire(_) => {},
            Plan::Reconfigure { address: changed, configuration } => {
                if *changed == address {
                    return Some(roots_after(address, configuration));
                }
            },
            Plan::Create { address: changed, configuration, .. } => {
                if *changed == address {
                    return Some(roots_after(address, configuration));
                }
            },
        }
    }
    match locks.get(address) {
        Some(lock) => match &lock.node_kind {
            NodeKind::Variable { .. } => {
                let mut own = AddressSet::new();
                let _ = own.insert(address);
                proof {
                    assert(own@ =~= set![address]);
                }
                Some(own)
            },
            NodeKind::Definition { ancestors } => Some(ancestors.clone()),
        },
        None => None,
    }
}

/// Whether `address` is one of the addresses of `created`.
fn is_created(created: &Vec<(Name, Address)>, address: Address) -> (found: bool)
    ensures
        found == is_new(created@, address),
{
    let mut i: usize = 0;
    while i < created.len()
        invariant
            i <= created@.len(),
            forall|j: int| 0 <= j < i ==> (#[trigger] created@[j]).1 != address,
        decreases created@.len() - i,
    {
        if created[i].1 == address {
            return true;
        }
        i += 1;
    }
    false
}

/// One more step gives one more name where it is a creation, and one more
/// definition its subscriptions.
pub proof fn lemma_names_push(plans: Seq<Plan>, step: Plan, first: bool)
    ensures
        names_of(plans.push(step)) == match step {
            Plan::Create { name, address, .. } => names_of(plans).push((name, address)),
            _ => names_of(plans),
        },
        subscribing(plans.push(step), first) == match step.configured() {
            Some((address, ReactiveConfiguration::Definition { inputs, .. })) => subscribing(
                plans,
                first,
            ) + pairs(inputs@, inputs@.len(), names_of(plans), address, first),
            _ => subscribing(plans, first),
        },
{
    assert(plans.push(step).drop_last() =~= plans);
}

/// The inputs of a definition with the expression `resolved`, after the
/// steps `plans`: the nodes that the expression reads, each once, with the
/// variables that it derives from. `None` where one of the nodes neither
/// was configured by the steps nor is locked.
fn inputs_of(resolved: &Expr<Address>, plans: &Vec<Plan>, locks: &AddressMap<HeldLock>) -> (inputs:
    Option<Vec<(Address, InputMetadata)>>)
    ensures
        match inputs {
            Some(inputs) => {
                &&& inputs@.len() == distinct(resolved@.reads()).len()
                &&& forall|k: int|
                    0 <= k < inputs@.len() ==> (#[trigger] inputs@[k]).0 == distinct(
                        resolved@.reads(),
                    )[k] && ancestors_after(plans@, locks@, inputs@[k].0) == Some(
                        inputs@[k].1.ancestors@,
                    )
                &&& forall|k: int|
                    0 <= k < resolved@.reads().len() ==> ancestors_after(
                        plans@,
                        locks@,
                        #[trigger] resolved@.reads()[k],
                    ) is Some
            },
            None => exists|k: int|
                0 <= k < resolved@.reads().len() && ancestors_after(
                    plans@,
                    locks@,
                    #[trigger] resolved@.reads()[k],
                ) is None,
        },
{
    let mut reads: Vec<(&Address, bool)> = Vec::new();
    let ghost none = reads@;
    resolved.visit_reads(&mut reads);
    let ghost wanted = resolved@.reads();
    proof {
        assert forall|j: int| 0 <= j < wanted.len() implies *(#[trigger] reads@[j]).0
            == wanted[j] by {
            assert(*reads@[none.len() + j].0 == wanted[j]);
        }
    }
    let mut seen = AddressSet::new();
    let mut inputs: Vec<(Address, InputMetadata)> = Vec::new();
    let mut k: usize = 0;
    while k < reads.len()
        invariant
            k <= reads@.len(),
            wanted == resolved@.reads(),
            reads@.len() == wanted.len(),
            forall|j: int| 0 <= j < wanted.len() ==> *(#[trigger] reads@[j]).0 == wanted[j],
            seen.members() == distinct(wanted.take(k as int)),
            inputs@.len() == seen.members().len(),
            forall|j: int|
                0 <= j < inputs@.len() ==> (#[trigger] inputs@[j]).0 == seen.members()[j]
                    && ancestors_after(plans@, locks@, inputs@[j].0) == Some(
                    inputs@[j].1.ancestors@,
                ),
            forall|j: int|
                0 <= j < k ==> ancestors_after(plans@, locks@, #[trigger] wanted[j]) is Some,
        decreases reads@.len() - k,
    {
        let input = *reads[k].0;
        let ghost earlier = seen.members();
        proof {
            assert(reads@[k as int] == reads@[0 + k]);
            assert(wanted.take(k + 1).drop_last() =~= wanted.take(k as int));
            assert(wanted.take(k + 1).last() == wanted[k as int]);
        }
        if seen.insert(input) {
            match ancestors_of(input, plans, locks) {
                Some(ancestors) => {
                    inputs.push((input, InputMetadata { ancestors }));
                },
                None => {
                    return None;
                },
            }
        } else {
            proof {
                assert(earlier.contains(input));
                let j = earlier.index_of(input);
                assert(inputs@[j].0 == input);
            }
        }
        k += 1;
    }
    proof {
        assert(wanted.take(k as int) =~= wanted);
    }
    Some(inputs)
}

/// Works out what the commit of an upgrade that has staged `staged` has to
/// do. There is one step for each staged node, in the order in which they
/// were staged: see [`fits`]. The nodes that the upgrade creates get the
/// addresses from `base` on. Each definition that the upgrade makes is paired
/// with each of its inputs: see [`subscribing`].
///
/// The upgrade cannot be committed where one of the staged nodes cannot be
/// carried out after those before it: see [`refusal`].
pub fn plan(
    staged: &Vec<StagedNode>,
    locks: &AddressMap<HeldLock>,
    directory: &Directory,
    base: Address,
) -> (out: Result<Blueprint, TransactionError>)
    ensures
        match out {
            Ok(blueprint) => planned(blueprint, staged@, locks@, *directory, base),
            Err(error) => exists|done: Seq<Plan>| #[trigger]
                stops(staged@, done, locks@, *directory, base, error),
        },
{
    let mut plans: Vec<Plan> = Vec::new();
    let mut subscriptions: Vec<(Address, Address)> = Vec::new();
    let mut first_subscribers: Vec<(Address, Address)> = Vec::new();
    let mut created: Vec<(Name, Address)> = Vec::new();
    let mut next: usize = base.index;
    let mut i: usize = 0;
    while i < staged.len()
        invariant
            i <= staged@.len(),
            plans@.len() == i,
            next == base.index + creations(plans@),
            created@ == names_of(plans@),
            subscriptions@ == subscribing(plans@, false),
            first_subscribers@ == subscribing(plans@, true),
            forall|k: int|
                0 <= k < i ==> fits(#[trigger] plans@[k], staged@[k], plans@.take(k), locks@, base),
            forall|k: int|
                0 <= k < i ==> refusal(
                    #[trigger] staged@[k],
                    plans@.take(k),
                    locks@,
                    *directory,
                    base,
                ) is None,
        decreases staged@.len() - i,
    {
        let ghost before = plans@;
        let (ident, configuration) = match &staged[i] {
            StagedNode::Del(node) => {
                let step = Plan::Retire(node.address);
                plans.push(step);
                proof {
                    lemma_creations_push(before, step);
                    lemma_names_push(before, step, false);
                    lemma_names_push(before, step, true);
                    assert(plans@.take(i as int) =~= before);
                    assert forall|k: int| 0 <= k < i implies plans@.take(k) == before.take(k) by {
                        assert(plans@.take(k) =~= before.take(k));
                    }
                }
                i += 1;
                continue ;
            },
            StagedNode::Var(ident, value) => {
                let configuration = ReactiveConfiguration::Variable {
                    value: StampedValue { value: value.clone(), basis: BasisStamp::empty() },
                };
                (ident, configuration)
            },
            StagedNode::Def(ident, expr, _) => {
                let resolved = match resolve(expr, &created) {
                    Some(resolved) => resolved,
                    None => {
                        proof {
                            assert(stops(
                                staged@,
                                before,
                                locks@,
                                *directory,
                                base,
                                TransactionError::Unresolved,
                            ));
                        }
                        return Err(TransactionError::Unresolved);
                    },
                };
                match inputs_of(&resolved, &plans, locks) {
                    Some(inputs) => (ident, ReactiveConfiguration::Definition { expr: resolved, inputs }),
                    None => {
                        proof {
                            assert(stops(
                                staged@,
                                before,
                                locks@,
                                *directory,
                                base,
                                TransactionError::Unresolved,
                            ));
                        }
                        return Err(TransactionError::Unresolved);
                    },
                }
            },
        };
        let address = match ident {
            Ident::Existing(node) => node.address,
            Ident::New(name) => {
                if lookup(&created, ident).is_some() || directory.get(name).len() > 0 {
                    proof {
                        assert(stops(
                            staged@,
                            before,
                            locks@,
                            *directory,
                            base,
                            TransactionError::NameTaken,
                        ));
                    }
                    return Err(TransactionError::NameTaken);
                }
                if next >= usize::MAX {
                    proof {
                        assert(stops(
                            staged@,
                            before,
                            locks@,
                            *directory,
                            base,
                            TransactionError::NoAddress,
                        ));
                    }
                    return Err(TransactionError::NoAddress);
                }
                Address { index: next }
            },
        };
        proof {
            assert(refusal(staged@[i as int], before, locks@, *directory, base) is None);
        }
        let ghost subscriptions0 = subscriptions@;
        let ghost first0 = first_subscribers@;
        match &configuration {
            ReactiveConfiguration::Variable { .. } => {},
            ReactiveConfiguration::Definition { inputs, .. } => {
                let mut k: usize = 0;
                while k < inputs.len()
                    invariant
                        k <= inputs@.len(),
                        subscriptions@ == subscriptions0 + pairs(
                            inputs@,
                            k as nat,
                            created@,
                            address,
                            false,
                        ),
                        first_subscribers@ == first0 + pairs(
                            inputs@,
                            k as nat,
                            created@,
                            address,
                            true,
                        ),
                    decreases inputs@.len() - k,
                {
                    let input = inputs[k].0;
                    let ghost some = subscriptions@;
                    let ghost firsts = first_subscribers@;
                    if is_created(&created, input) {
                        first_subscribers.push((input, address));
                    } else {
                        subscriptions.push((input, address));
                    }
                    k += 1;
                    proof {
                        let n = k as nat;
                        let earlier = pairs(inputs@, (n - 1) as nat, created@, address, false);
                        let earlier_first = pairs(inputs@, (n - 1) as nat, created@, address, true);
                        if is_new(created@, input) {
                            assert(first_subscribers@ =~= first0 + earlier_first.push(
                                (input, address),
                            ));
                        } else {
                            assert(subscriptions@ =~= subscriptions0 + earlier.push(
                                (input, address),
                            ));
                        }
                    }
                }
            },
        }
        let step = match ident {
            Ident::Existing(_) => Plan::Reconfigure { address, configuration },
            Ident::New(name) => {
                created.push((name.clone(), address));
                next += 1;
                Plan::Create { name: name.clone(), address, configuration }
            },
        };
        proof {
            lemma_creations_push(before, step);
            lemma_names_push(before, step, false);
            lemma_names_push(before, step, true);
            if step.configured() matches Some((_, ReactiveConfiguration::Variable { .. })) {
                assert(subscriptions@ =~= subscriptions0);
                assert(first_subscribers@ =~= first0);
            }
            assert(fits(step, staged@[i as int], before, locks@, base));
        }
        plans.push(step);
        proof {
            assert(plans@.take(i as int) =~= before);
            assert forall|k: int| 0 <= k < i implies plans@.take(k) == before.take(k) by {
                assert(plans@.take(k) =~= before.take(k));
            }
        }
        i += 1;
    }
    proof {
        assert(plans@.take(i as int) =~= plans@);
    }
    Ok(Blueprint { plans, subscriptions, first_subscribers })
}

/// The number of nodes that the steps `plans` create.
pub open spec fn creations(plans: Seq<Plan>) -> nat
    decreases plans.len(),
{
    if plans.len() == 0 {
        0
    } else {
        creations(plans.drop_last()) + if plans.last() is Create {
            1nat
        } else {
            0nat
        }
    }
}

/// One more step creates one more node where it is a creation.
pub proof fn lemma_creations_push(plans: Seq<Plan>, step: Plan)
    ensures
        creations(plans.push(step)) == creations(plans) + if step is Create {
            1nat
        } else {
            0nat
        },
{
    assert(plans.push(step).drop_last() =~= plans);
}

/// The subscribers that the node at `address` has from the start: the
/// definitions that `first_subscribers` pairs it with.
pub open spec fn first_subscribers_of(first_subscribers: Seq<(Address, Address)>, address: Address) -> Set<
    Address,
> {
    Set::new(
        |subscriber: Address|
            exists|i: int|
                0 <= i < first_subscribers.len() && #[trigger] first_subscribers[i] == (
                    address,
                    subscriber,
                ),
    )
}

/// The subscribers that the node at `address` has from the start.
fn subscribers_of(first_subscribers: &Vec<(Address, Address)>, address: Address) -> (subscribers:
    AddressSet)
    ensures
        subscribers@ == first_subscribers_of(first_subscribers@, address),
{
    let mut subscribers = AddressSet::new();
    let mut i: usize = 0;
    while i < first_subscribers.len()
        invariant
            i <= first_subscribers@.len(),
            forall|s: Address|
                #![trigger subscribers@.contains(s)]
                subscribers@.contains(s) <==> exists|k: int|
                    0 <= k < i && #[trigger] first_subscribers@[k] == (address, s),
        decreases first_subscribers@.len() - i,
    {
        let ghost before = subscribers@;
        if first_subscribers[i].0 == address {
            let _ = subscribers.insert(first_subscribers[i].1);
        }
        proof {
            assert forall|s: Address|
                #![trigger subscribers@.contains(s)]
                subscribers@.contains(s) <==> exists|k: int|
                    0 <= k < i + 1 && #[trigger] first_subscribers@[k] == (address, s) by {
                if before.contains(s) {
                    let k = choose|k: int|
                        0 <= k < i && #[trigger] first_subscribers@[k] == (address, s);
                    assert(0 <= k < i + 1 && first_subscribers@[k] == (address, s));
                }
                if first_subscribers@[i as int] == (address, s) {
                    assert(0 <= i < i + 1 && first_subscribers@[i as int] == (address, s));
                }
                if exists|k: int| 0 <= k < i + 1 && #[trigger] first_subscribers@[k] == (address, s) {
                    let k = choose|k: int|
                        0 <= k < i + 1 && #[trigger] first_subscribers@[k] == (address, s);
                    if k < i {
                        assert(before.contains(s));
                    }
                }
            }
        }
        i += 1;
    }
    proof {
        assert(subscribers@ =~= first_subscribers_of(first_subscribers@, address));
    }
    subscribers
}

/// The messages that the steps `plans` of the upgrade `txid` owe to the nodes
/// that exist, in order, as sent by `me`: a retirement for each node that is
/// deleted, and the new configuration for each node that is changed.
pub open spec fn plan_messages(plans: Seq<Plan>, txid: TxId, me: Address) -> Seq<Envelope>
    decreases plans.len(),
{
    if plans.len() == 0 {
        Seq::empty()
    } else {
        let earlier = plan_messages(plans.drop_last(), txid, me);
        match plans.last() {
            Plan::Retire(address) => earlier.push(
                Envelope { sender: me, target: address, message: Message::Retire { txid } },
            ),
            Plan::Reconfigure { address, configuration } => earlier.push(
                Envelope {
                    sender: me,
                    target: address,
                    message: Message::Reconfigure { txid, configuration },
                },
            ),
            Plan::Create { .. } => earlier,
        }
    }
}

/// The creations among the steps `plans`, in order.
pub open spec fn created_by(plans: Seq<Plan>) -> Seq<Plan>
    decreases plans.len(),
{
    if plans.len() == 0 {
        Seq::empty()
    } else {
        let earlier = created_by(plans.drop_last());
        if plans.last() is Create {
            earlier.push(plans.last())
        } else {
            earlier
        }
    }
}

/// Whether `actor` is the node that the creation `step` asks for, with the
/// subscribers that `first_subscribers` gives it.
pub open spec fn is_created_node<A: Host>(
    actor: A,
    step: Plan,
    first_subscribers: Seq<(Address, Address)>,
) -> bool {
    &&& step matches Plan::Create { address, configuration, .. }
    &&& actor.hosted() matches Some(node)
    &&& node.wf()
    &&& node.subscribers()@ == first_subscribers_of(first_subscribers, address)
    &&& node.lock().held() is Free
    &&& node.version().0 == 0
    &&& node.changed() == (configuration is Variable)
    &&& match configuration {
        ReactiveConfiguration::Variable { value } => {
            &&& node.definition() is None
            &&& node.current_value() == Some(value)
        },
        ReactiveConfiguration::Definition { expr, inputs } => {
            &&& node.current_value() is None
            &&& node.definition() matches Some(definition)
            &&& crate::reactive::definition::defined(definition, expr@, inputs@)
        },
    }
}

/// Whether `envelope` subscribes the definition `subscriber` to the node at
/// `target`, under the lock of `txid`.
pub open spec fn is_subscription(
    envelope: Envelope,
    me: Address,
    target: Address,
    subscriber: Address,
    txid: TxId,
) -> bool {
    &&& envelope.sender == me
    &&& envelope.target == target
    &&& envelope.message matches Message::UpdateSubscriptions { txid: holder, changes }
    &&& holder == txid
    &&& changes@ == Map::<Address, bool>::empty().insert(subscriber, true)
}

/// Whether `ctx` is `before` once the steps of `blueprint` were carried out
/// for the upgrade `txid`: the messages that the steps owe were sent, then
/// the subscriptions were sent, and the nodes that the steps create were
/// spawned, in order.
pub open spec fn carried_out<A: Host>(
    before: Context<A>,
    ctx: Context<A>,
    blueprint: Blueprint,
    txid: TxId,
) -> bool {
    let me = before.spec_me();
    let told = plan_messages(blueprint.plans@, txid, me);
    let made = created_by(blueprint.plans@);
    let sent = ctx.sent().skip(before.sent().len() as int);
    let spawned = ctx.spawned().skip(before.spawned().len() as int);
    &&& sent.len() == told.len() + blueprint.subscriptions@.len()
    &&& sent.take(told.len() as int) == told
    &&& forall|i: int|
        0 <= i < blueprint.subscriptions@.len() ==> is_subscription(
            #[trigger] sent[told.len() + i],
            me,
            blueprint.subscriptions@[i].0,
            blueprint.subscriptions@[i].1,
            txid,
        )
    &&& spawned.len() == made.len()
    &&& forall|i: int|
        0 <= i < made.len() ==> is_created_node(
            #[trigger] spawned[i],
            made[i],
            blueprint.first_subscribers@,
        )
}

/// One more step owes one more message, unless it is a creation.
pub proof fn lemma_plan_messages_push(plans: Seq<Plan>, step: Plan, txid: TxId, me: Address)
    ensures
        plan_messages(plans.push(step), txid, me) == match step {
            Plan::Retire(address) => plan_messages(plans, txid, me).push(
                Envelope { sender: me, target: address, message: Message::Retire { txid } },
            ),
            Plan::Reconfigure { address, configuration } => plan_messages(plans, txid, me).push(
                Envelope {
                    sender: me,
                    target: address,
                    message: Message::Reconfigure { txid, configuration },
                },
            ),
            Plan::Create { .. } => plan_messages(plans, txid, me),
        },
        created_by(plans.push(step)) == if step is Create {
            created_by(plans).push(step)
        } else {
            created_by(plans)
        },
        created_by(plans).len() == creations(plans),
    decreases plans.len(),
{
    assert(plans.push(step).drop_last() =~= plans);
    if plans.len() > 0 {
        lemma_plan_messages_push(plans.drop_last(), plans.last(), txid, me);
        assert(plans.drop_last().push(plans.last()) =~= plans);
    }
}

/// Carries the steps of `blueprint` out, for the upgrade `txid`: the nodes
/// that exist are told what becomes of them, the new nodes are spawned, and
/// the definitions that the upgrade makes are subscribed to the existing
/// nodes that they read. Returns the new nodes with the names under which
/// they are yet to be registered. Nothing is done where the addresses do not
/// suffice for the new nodes.
pub fn carry_out<A: Host>(blueprint: Blueprint, txid: TxId, ctx: &mut Context<A>) -> (out: Result<
    Vec<(Name, Address)>,
    TransactionError,
>)
    ensures
        final(ctx).extends(old(ctx)),
        final(ctx).retired() == old(ctx).retired(),
        sent_by(final(ctx).sent(), old(ctx).sent().len() as int, old(ctx).spec_me()),
        match out {
            Ok(born) => {
                let made = created_by(blueprint.plans@);
                &&& carried_out(*old(ctx), *final(ctx), blueprint, txid)
                &&& born@.len() == made.len()
                &&& forall|i: int|
                    0 <= i < made.len() ==> (#[trigger] born@[i]).0 == made[i]->Create_name
                        && born@[i].1.index == old(ctx).first_spawn() + old(ctx).spawned().len() + i
            },
            Err(error) => {
                &&& error is NoAddress
                &&& old(ctx).first_spawn() + old(ctx).spawned().len() + creations(blueprint.plans@)
                    > usize::MAX
                &&& *final(ctx) == *old(ctx)
            },
        },
{
    let me = ctx.me();
    let ghost sent0 = ctx.sent();
    let ghost spawned0 = ctx.spawned();
    let ghost plans0 = blueprint.plans@;
    let Blueprint { plans, subscriptions, first_subscribers } = blueprint;
    // The new nodes are counted first: either all of them get an address or
    // nothing is done.
    let mut wanted: usize = 0;
    let mut c: usize = 0;
    while c < plans.len()
        invariant
            c <= plans@.len(),
            wanted == creations(plans@.take(c as int)),
            wanted <= c,
        decreases plans@.len() - c,
    {
        proof {
            assert(plans@.take(c + 1).drop_last() =~= plans@.take(c as int));
            assert(plans@.take(c + 1).last() == plans@[c as int]);
        }
        match &plans[c] {
            Plan::Create { .. } => {
                wanted += 1;
            },
            _ => {},
        }
        c += 1;
    }
    proof {
        assert(plans@.take(plans@.len() as int) =~= plans@);
    }
    let room = match ctx.next_address() {
        Some(next) => usize::MAX - next.index,
        None => 0,
    };
    if wanted > room {
        return Err(TransactionError::NoAddress);
    }
    let mut plans = plans;
    let mut born: Vec<(Name, Address)> = Vec::new();
    let ghost mut done: int = 0;
    while plans.len() > 0
        invariant
            0 <= done <= plans0.len(),
            plans@ == plans0.skip(done),
            ctx.spec_me() == me,
            ctx.first_spawn() == old(ctx).first_spawn(),
            ctx.extends(old(ctx)),
            ctx.retired() == old(ctx).retired(),
            sent0 == old(ctx).sent(),
            spawned0 == old(ctx).spawned(),
            creations(plans0) > 0 ==> old(ctx).first_spawn() + spawned0.len() + creations(plans0)
                <= usize::MAX,
            ctx.sent() == sent0 + plan_messages(plans0.take(done), txid, me),
            ctx.spawned().len() == spawned0.len() + creations(plans0.take(done)),
            creations(plans0.take(done)) <= creations(plans0),
            born@.len() == creations(plans0.take(done)),
            forall|i: int|
                0 <= i < born@.len() ==> (#[trigger] born@[i]).0 == created_by(
                    plans0.take(done),
                )[i]->Create_name && born@[i].1.index == old(ctx).first_spawn() + spawned0.len()
                    + i,
            forall|i: int|
                0 <= i < creations(plans0.take(done)) ==> is_created_node(
                    #[trigger] ctx.spawned()[spawned0.len() + i],
                    created_by(plans0.take(done))[i],
                    first_subscribers@,
                ),
        decreases plans@.len(),
    {
        let ghost sent1 = ctx.sent();
        let ghost spawned1 = ctx.spawned();
        let ghost born1 = born@;
        let ghost step = plans@[0];
        proof {
            assert(step == plans0[done]);
            assert(plans0.take(done + 1) =~= plans0.take(done).push(step));
            lemma_plan_messages_push(plans0.take(done), step, txid, me);
            lemma_creations_push(plans0.take(done), step);
            lemma_creations_monotonic(plans0, done + 1);
        }
        match plans.remove(0) {
            Plan::Retire(address) => {
                ctx.send(address, Message::Retire { txid });
            },
            Plan::Reconfigure { address, configuration } => {
                ctx.send(address, Message::Reconfigure { txid, configuration });
            },
            Plan::Create { name, address, configuration } => {
                let node = Reactive::with_subscribers(
                    configuration,
                    subscribers_of(&first_subscribers, address),
                );
                match ctx.spawn(A::host(node)) {
                    Some(given) => {
                        born.push((name, given));
                    },
                    None => {
                        proof {
                            assert(false);
                        }
                    },
                }
            },
        }
        proof {
            assert(plans@ =~= plans0.skip(done + 1));
            let made = created_by(plans0.take(done + 1));
            assert forall|i: int| 0 <= i < born@.len() implies (#[trigger] born@[i]).0
                == made[i]->Create_name && born@[i].1.index == old(ctx).first_spawn()
                + spawned0.len() + i by {
                if i < born1.len() {
                    assert(born@[i] == born1[i]);
                }
            }
            assert forall|i: int| 0 <= i < creations(plans0.take(done + 1)) implies is_created_node(
                #[trigger] ctx.spawned()[spawned0.len() + i],
                made[i],
                first_subscribers@,
            ) by {
                if i < creations(plans0.take(done)) {
                    assert(ctx.spawned()[spawned0.len() + i] == spawned1[spawned0.len() + i]);
                }
            }
            done = done + 1;
        }
    }
    proof {
        assert(plans0.take(done) =~= plans0);
    }
    let ghost sent2 = ctx.sent();
    let mut i: usize = 0;
    while i < subscriptions.len()
        invariant
            i <= subscriptions@.len(),
            ctx.spec_me() == me,
            ctx.extends(old(ctx)),
            ctx.retired() == old(ctx).retired(),
            ctx.spawned().len() == spawned0.len() + creations(plans0),
            forall|k: int|
                0 <= k < creations(plans0) ==> is_created_node(
                    #[trigger] ctx.spawned()[spawned0.len() + k],
                    created_by(plans0)[k],
                    first_subscribers@,
                ),
            sent2.is_prefix_of(ctx.sent()),
            ctx.sent().len() == sent2.len() + i,
            forall|k: int|
                0 <= k < i ==> is_subscription(
                    #[trigger] ctx.sent()[sent2.len() + k],
                    me,
                    subscriptions@[k].0,
                    subscriptions@[k].1,
                    txid,
                ),
        decreases subscriptions@.len() - i,
    {
        let ghost before = ctx.sent();
        let mut changes: AddressMap<bool> = AddressMap::new();
        let _ = changes.insert(subscriptions[i].1, true);
        ctx.send(subscriptions[i].0, Message::UpdateSubscriptions { txid, changes });
        proof {
            assert forall|k: int| 0 <= k < i + 1 implies is_subscription(
                #[trigger] ctx.sent()[sent2.len() + k],
                me,
                subscriptions@[k].0,
                subscriptions@[k].1,
                txid,
            ) by {
                if k < i {
                    assert(ctx.sent()[sent2.len() + k] == before[sent2.len() + k]);
                }
            }
        }
        i += 1;
    }
    proof {
        lemma_plan_messages_push(plans0, Plan::Retire(me), txid, me);
        let told = plan_messages(plans0, txid, me);
        let sent = ctx.sent().skip(sent0.len() as int);
        let spawned = ctx.spawned().skip(spawned0.len() as int);
        assert(sent.take(told.len() as int) =~= told) by {
            assert forall|k: int| 0 <= k < told.len() implies sent[k] == told[k] by {
                assert(ctx.sent()[sent0.len() + k] == sent2[sent0.len() + k]);
            }
        }
        assert forall|k: int| 0 <= k < subscriptions@.len() implies is_subscription(
            #[trigger] sent[told.len() + k],
            me,
            subscriptions@[k].0,
            subscriptions@[k].1,
            txid,
        ) by {
            assert(sent[told.len() + k] == ctx.sent()[sent2.len() + k]);
        }
        assert forall|k: int| 0 <= k < created_by(plans0).len() implies is_created_node(
            #[trigger] spawned[k],
            created_by(plans0)[k],
            first_subscribers@,
        ) by {
            assert(spawned[k] == ctx.spawned()[spawned0.len() + k]);
        }
        assert forall|k: int| sent0.len() <= k < ctx.sent().len() implies (#[trigger] ctx.sent()[k]).sender
            == me by {
            let x = k - sent0.len();
            if x < told.len() {
                assert(sent[x] == told[x]);
                lemma_plan_messages_senders(plans0, txid, me, x);
            } else {
                assert(sent[told.len() + (x - told.len())].sender == me);
            }
            assert(sent[x] == ctx.sent()[k]);
        }
    }
    Ok(born)
}

/// The messages that steps owe are sent by `me`.
pub proof fn lemma_plan_messages_senders(plans: Seq<Plan>, txid: TxId, me: Address, i: int)
    requires
        0 <= i < plan_messages(plans, txid, me).len(),
    ensures
        plan_messages(plans, txid, me)[i].sender == me,
    decreases plans.len(),
{
    if plans.len() > 0 {
        let earlier = plan_messages(plans.drop_last(), txid, me);
        if i < earlier.len() {
            lemma_plan_messages_senders(plans.drop_last(), txid, me, i);
        }
    }
}

/// The first steps create no more nodes than all the steps.
pub proof fn lemma_creations_monotonic(plans: Seq<Plan>, n: int)
    requires
        0 <= n <= plans.len(),
    ensures
        creations(plans.take(n)) <= creations(plans),
    decreases plans.len() - n,
{
    if n < plans.len() {
        lemma_creations_monotonic(plans, n + 1);
        assert(plans.take(n + 1).drop_last() =~= plans.take(n));
    } else {
        assert(plans.take(n) =~= plans);
    }
}

} // verus!
