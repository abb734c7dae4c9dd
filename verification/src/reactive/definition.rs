//! The definition of a reactive node: an expression over the values of other
//! nodes, and the updates that those nodes have propagated.
//!
//! Updates arrive in any interleaving. The definition holds them back, input
//! by input, until it finds a batch: a number of updates from the front of
//! each queue that, taken together, describe one consistent state of the
//! roots. Only then does it move on to the new values and evaluate its
//! expression again.

use crate::actor::Address;
use crate::address_map::{AddressMap, AddressSet};
use crate::basis::{
    lemma_join_insert, lemma_join_monotonic, lemma_join_single, stamp_is_join, stamp_le,
    stamp_latest, stamp_merge, stamp_prec_eq,
};
use crate::expr::eval::ExprEvalContext;
use crate::expr::{Expr, ExprView, Value, ValueView};
use crate::message::{BasisStamp, InputMetadata, Stamp, StampedValue};
use vstd::prelude::*;

verus! {

/// One input of a definition.
#[derive(Debug, PartialEq, Eq)]
pub struct Input {
    /// The variables from which the input's value derives.
    pub ancestors: AddressSet,
    /// The baseline: the value that the definition last accepted from the
    /// input. `None` until the input's first update has been accepted.
    pub value: Option<StampedValue>,
    /// The updates that have arrived since, oldest first.
    pub updates: Vec<StampedValue>,
}

impl Input {
    /// An input of which nothing is known yet but its ancestors.
    pub fn new(ancestors: AddressSet) -> (input: Input)
        ensures
            input.ancestors == ancestors,
            input.value is None,
            input.updates@ == Seq::<StampedValue>::empty(),
    {
        Input { ancestors, value: None, updates: Vec::new() }
    }
}

/// The stamp of the `j`-th queued update of the `i`-th input.
pub open spec fn update_basis(inputs: Seq<Input>, i: int, j: int) -> Stamp {
    inputs[i].updates@[j].basis@
}

/// The stamp of the value that an input shows once `consumed` of its queued
/// updates have been taken: that of the last update taken, else that of the
/// baseline, else the empty stamp.
pub open spec fn current_basis(input: Input, consumed: usize) -> Stamp {
    if consumed > 0 {
        input.updates@[consumed - 1].basis@
    } else {
        match input.value {
            Some(value) => value.basis@,
            None => Map::empty(),
        }
    }
}

/// The inputs that are marked in `flags`.
pub open spec fn explored_set(flags: Seq<bool>) -> Set<int> {
    Set::new(|i: int| 0 <= i < flags.len() && flags[i])
}

/// The number of queued updates that a batch for `seed` may take from the
/// `i`-th input: all of them from the seed itself and from the inputs that
/// were explored before, none from any other input.
pub open spec fn cap(inputs: Seq<Input>, explored: Set<int>, seed: int, i: int) -> nat {
    if i == seed || explored.contains(i) {
        inputs[i].updates@.len()
    } else {
        0
    }
}

/// The stamps of the updates that are taken when `counts[i]` updates are taken
/// from the front of the queue of each input `i`.
pub open spec fn contributions(inputs: Seq<Input>, counts: Seq<usize>) -> Set<Stamp> {
    Set::new(
        |p: Stamp|
            exists|i: int, j: int|
                0 <= i < inputs.len() && 0 <= j < counts[i] && p == #[trigger] update_basis(
                    inputs,
                    i,
                    j,
                ),
    )
}

/// Whether `counts` takes at least one update from the seed and from no input
/// more than it may.
pub open spec fn within(inputs: Seq<Input>, explored: Set<int>, seed: int, counts: Seq<usize>) -> bool {
    &&& counts.len() == inputs.len()
    &&& 0 <= seed < inputs.len()
    &&& counts[seed] >= 1
    &&& forall|i: int| 0 <= i < inputs.len() ==> #[trigger] counts[i] <= cap(inputs, explored, seed, i)
}

/// Whether every input, after `counts`, shows a value that is at or ahead of
/// `joined` on the input's own ancestors.
pub open spec fn closed(inputs: Seq<Input>, counts: Seq<usize>, joined: Stamp) -> bool {
    forall|i: int|
        0 <= i < inputs.len() ==> stamp_prec_eq(
            joined,
            #[trigger] current_basis(inputs[i], counts[i]),
            inputs[i].ancestors@,
        )
}

/// Whether `counts` is a batch for `seed`: a consistent selection of updates.
/// Its stamp `joined` is the maximum of the stamps of the updates taken, and
/// no input is left behind it.
pub open spec fn is_batch(
    inputs: Seq<Input>,
    explored: Set<int>,
    seed: int,
    counts: Seq<usize>,
    joined: Stamp,
) -> bool {
    &&& within(inputs, explored, seed, counts)
    &&& stamp_is_join(joined, contributions(inputs, counts))
    &&& closed(inputs, counts, joined)
}

/// Whether `counts` takes from no input more than `other` does.
pub open spec fn below(counts: Seq<usize>, other: Seq<usize>) -> bool {
    forall|i: int| 0 <= i < counts.len() ==> #[trigger] counts[i] <= other[i]
}

/// Whether `counts` is the least batch for `seed`: it is a batch, and every
/// batch for `seed` takes at least as much from every input.
pub open spec fn is_least_batch(
    inputs: Seq<Input>,
    explored: Set<int>,
    seed: int,
    counts: Seq<usize>,
    joined: Stamp,
) -> bool {
    &&& is_batch(inputs, explored, seed, counts, joined)
    &&& forall|other: Seq<usize>, stamp: Stamp| #[trigger]
        is_batch(inputs, explored, seed, other, stamp) ==> below(counts, other)
}

/// Whether there is a batch for `seed`.
pub open spec fn seed_has_batch(inputs: Seq<Input>, explored: Set<int>, seed: int) -> bool {
    exists|counts: Seq<usize>, joined: Stamp| is_batch(inputs, explored, seed, counts, joined)
}

/// The updates that `counts` leaves in the queues of the first `n` inputs.
pub open spec fn remaining(inputs: Seq<Input>, counts: Seq<usize>, n: nat) -> int
    decreases n,
{
    if n == 0 {
        0
    } else {
        remaining(inputs, counts, (n - 1) as nat) + (inputs[n - 1].updates@.len() - counts[n - 1])
    }
}

/// Taking one more update from an input leaves one update less.
proof fn lemma_remaining_step(inputs: Seq<Input>, counts: Seq<usize>, i: int, n: nat)
    requires
        counts.len() == inputs.len(),
        0 <= i < inputs.len(),
        n <= inputs.len(),
        counts[i] < usize::MAX,
        forall|k: int| 0 <= k < inputs.len() ==> #[trigger] counts[k] <= inputs[k].updates@.len(),
    ensures
        remaining(inputs, counts.update(i, (counts[i] + 1) as usize), n) == remaining(
            inputs,
            counts,
            n,
        ) - if i < n {
            1int
        } else {
            0int
        },
        remaining(inputs, counts, n) >= 0,
        remaining(inputs, counts, inputs.len()) >= 0,
    decreases inputs.len() - n,
{
    lemma_remaining_prefix(inputs, counts, i, n);
    lemma_remaining_prefix(inputs, counts, i, inputs.len());
}

/// No queue holds fewer updates than were taken from it.
proof fn lemma_remaining_nonnegative(inputs: Seq<Input>, counts: Seq<usize>, n: nat)
    requires
        counts.len() == inputs.len(),
        n <= inputs.len(),
        forall|k: int| 0 <= k < inputs.len() ==> #[trigger] counts[k] <= inputs[k].updates@.len(),
    ensures
        remaining(inputs, counts, n) >= 0,
    decreases n,
{
    if n > 0 {
        lemma_remaining_nonnegative(inputs, counts, (n - 1) as nat);
    }
}

/// As [`lemma_remaining_step`], for the first `n` inputs.
proof fn lemma_remaining_prefix(inputs: Seq<Input>, counts: Seq<usize>, i: int, n: nat)
    requires
        counts.len() == inputs.len(),
        0 <= i < inputs.len(),
        n <= inputs.len(),
        counts[i] < usize::MAX,
        forall|k: int| 0 <= k < inputs.len() ==> #[trigger] counts[k] <= inputs[k].updates@.len(),
    ensures
        remaining(inputs, counts.update(i, (counts[i] + 1) as usize), n) == remaining(
            inputs,
            counts,
            n,
        ) - if i < n {
            1int
        } else {
            0int
        },
        remaining(inputs, counts, n) >= 0,
    decreases n,
{
    if n > 0 {
        lemma_remaining_prefix(inputs, counts, i, (n - 1) as nat);
    }
}

/// Taking one more update from an input adds the stamp of that update.
proof fn lemma_contributions_step(inputs: Seq<Input>, counts: Seq<usize>, i: int)
    requires
        counts.len() == inputs.len(),
        0 <= i < inputs.len(),
        counts[i] < usize::MAX,
    ensures
        contributions(inputs, counts.update(i, (counts[i] + 1) as usize)) == contributions(
            inputs,
            counts,
        ).insert(update_basis(inputs, i, counts[i] as int)),
{
    let more = counts.update(i, (counts[i] + 1) as usize);
    let added = update_basis(inputs, i, counts[i] as int);
    assert forall|p: Stamp| contributions(inputs, more).contains(p) implies contributions(
        inputs,
        counts,
    ).insert(added).contains(p) by {
        let (a, b) = choose|a: int, b: int|
            0 <= a < inputs.len() && 0 <= b < more[a] && p == #[trigger] update_basis(inputs, a, b);
        if a == i && b == counts[i] {
        } else {
            assert(0 <= b < counts[a] && p == update_basis(inputs, a, b));
        }
    }
    assert forall|p: Stamp| contributions(inputs, counts).insert(added).contains(p)
        implies contributions(inputs, more).contains(p) by {
        if p == added {
            assert(0 <= counts[i] < more[i] && p == update_basis(inputs, i, counts[i] as int));
        } else {
            let (a, b) = choose|a: int, b: int|
                0 <= a < inputs.len() && 0 <= b < counts[a] && p == #[trigger] update_basis(
                    inputs,
                    a,
                    b,
                );
            assert(0 <= b < more[a] && p == update_basis(inputs, a, b));
        }
    }
    assert(contributions(inputs, more) =~= contributions(inputs, counts).insert(added));
}

/// Who takes less contributes less.
proof fn lemma_contributions_subset(inputs: Seq<Input>, counts: Seq<usize>, other: Seq<usize>)
    requires
        counts.len() == inputs.len(),
        other.len() == inputs.len(),
        below(counts, other),
    ensures
        contributions(inputs, counts).subset_of(contributions(inputs, other)),
{
    assert forall|p: Stamp| contributions(inputs, counts).contains(p) implies contributions(
        inputs,
        other,
    ).contains(p) by {
        let (a, b) = choose|a: int, b: int|
            0 <= a < inputs.len() && 0 <= b < counts[a] && p == #[trigger] update_basis(
                inputs,
                a,
                b,
            );
        assert(counts[a] <= other[a]);
        assert(0 <= b < other[a] && p == update_basis(inputs, a, b));
    }
}

/// An input that is behind the stamp of what was taken so far has to give
/// one more update in every batch that takes at least as much.
proof fn lemma_forced(
    inputs: Seq<Input>,
    explored: Set<int>,
    seed: int,
    counts: Seq<usize>,
    joined: Stamp,
    i: int,
    other: Seq<usize>,
    stamp: Stamp,
)
    requires
        counts.len() == inputs.len(),
        0 <= i < inputs.len(),
        stamp_is_join(joined, contributions(inputs, counts)),
        !stamp_prec_eq(joined, current_basis(inputs[i], counts[i]), inputs[i].ancestors@),
        is_batch(inputs, explored, seed, other, stamp),
        below(counts, other),
    ensures
        counts[i] < other[i],
{
    if other[i] == counts[i] {
        lemma_contributions_subset(inputs, counts, other);
        lemma_join_monotonic(
            joined,
            contributions(inputs, counts),
            stamp,
            contributions(inputs, other),
        );
        let shown = current_basis(inputs[i], other[i]);
        assert(stamp_prec_eq(stamp, shown, inputs[i].ancestors@));
        assert forall|r: Address| inputs[i].ancestors@.contains(r) implies stamp_latest(joined, r)
            <= #[trigger] stamp_latest(shown, r) by {
            assert(stamp_latest(joined, r) <= stamp_latest(stamp, r));
        }
    }
}

/// The inputs that were tried as seeds before `seed` and had no batch.
pub open spec fn explored_before(inputs: Seq<Input>, seed: nat) -> Set<int>
    decreases seed,
{
    if seed == 0 {
        Set::empty()
    } else {
        let earlier = explored_before(inputs, (seed - 1) as nat);
        if seed_has_batch(inputs, earlier, seed - 1) {
            earlier
        } else {
            earlier.insert(seed - 1)
        }
    }
}

/// The seed whose batch is applied, where the first `n` inputs are tried as
/// seeds in order: the last of them that has a batch.
pub open spec fn chosen_seed(inputs: Seq<Input>, n: nat) -> Option<int>
    decreases n,
{
    if n == 0 {
        None
    } else if seed_has_batch(inputs, explored_before(inputs, (n - 1) as nat), n - 1) {
        Some(n - 1)
    } else {
        chosen_seed(inputs, (n - 1) as nat)
    }
}

/// `basis` merged, in the order of the inputs, with the stamp of the baseline
/// of each of the first `n` inputs from which nothing is taken.
pub open spec fn with_untouched(basis: Stamp, inputs: Seq<Input>, counts: Seq<usize>, n: nat) -> Stamp
    decreases n,
{
    if n == 0 {
        basis
    } else {
        let earlier = with_untouched(basis, inputs, counts, (n - 1) as nat);
        if counts[n - 1] == 0 && inputs[n - 1].value is Some {
            stamp_merge(earlier, inputs[n - 1].value->Some_0.basis@)
        } else {
            earlier
        }
    }
}

/// Whether `after` is the input `before` once `taken` updates have been taken
/// from the front of its queue: the last of them is the new baseline, and the
/// updates behind them stay queued in their order.
pub open spec fn input_after(before: Input, after: Input, taken: usize) -> bool {
    &&& after.ancestors == before.ancestors
    &&& after.updates@ == before.updates@.skip(taken as int)
    &&& after.value == if taken > 0 {
        Some(before.updates@[taken - 1])
    } else {
        before.value
    }
}

/// Whether `after` are the inputs `before` once `counts` has been taken.
pub open spec fn inputs_after(before: Seq<Input>, after: Seq<Input>, counts: Seq<usize>) -> bool {
    &&& after.len() == before.len()
    &&& forall|i: int| 0 <= i < before.len() ==> input_after(before[i], #[trigger] after[i], counts[i])
}

/// The value of the baseline of the input at `address`, if it has one.
pub open spec fn baseline_of(inputs: Map<Address, Input>, address: Address) -> Option<ValueView> {
    if inputs.contains_key(address) && inputs[address].value is Some {
        Some(inputs[address].value->Some_0.value@)
    } else {
        None
    }
}

/// The stamps of the baselines of the first `n` inputs, merged in order.
pub open spec fn baselines_joined(inputs: Seq<Input>, n: nat) -> Stamp
    decreases n,
{
    if n == 0 {
        Map::empty()
    } else {
        let earlier = baselines_joined(inputs, (n - 1) as nat);
        match inputs[n - 1].value {
            Some(value) => stamp_merge(earlier, value.basis@),
            None => earlier,
        }
    }
}

/// The ancestors of all of the inputs.
pub open spec fn all_ancestors(inputs: Seq<Input>) -> Set<Address> {
    Set::new(
        |a: Address| exists|i: int| 0 <= i < inputs.len() && (#[trigger] inputs[i]).ancestors@.contains(a),
    )
}

/// Whether `input` is an input as it is first set up from `metadata`: it has
/// the ancestors that `metadata` names, no baseline and no update.
pub open spec fn fresh_from(input: Input, metadata: InputMetadata) -> bool {
    &&& input.ancestors@ == metadata.ancestors@
    &&& input.ancestors.members() == metadata.ancestors.members()
    &&& input.value is None
    &&& input.updates@ == Seq::<StampedValue>::empty()
}

/// Whether the `k`-th of `configured` is the last that sets up `address`
/// among the first `n`.
pub open spec fn sets_up(
    configured: Seq<(Address, InputMetadata)>,
    n: int,
    k: int,
    address: Address,
) -> bool {
    &&& 0 <= k < n
    &&& configured[k].0 == address
    &&& forall|j: int| k < j < n ==> (#[trigger] configured[j]).0 != address
}

/// Whether `after` is `before` with the inputs that `configured` sets up, each
/// set up afresh. Where `configured` names an address more than once, the
/// last counts.
pub open spec fn set_up(
    before: Map<Address, Input>,
    after: Map<Address, Input>,
    configured: Seq<(Address, InputMetadata)>,
    n: int,
) -> bool {
    &&& forall|a: Address|
        #![trigger after.contains_key(a)]
        after.contains_key(a) <==> before.contains_key(a) || exists|k: int|
            sets_up(configured, n, k, a)
    &&& forall|a: Address, k: int| #[trigger]
        sets_up(configured, n, k, a) ==> after.contains_key(a) && fresh_from(
            after[a],
            configured[k].1,
        )
    &&& forall|a: Address|
        #![trigger after[a]]
        before.contains_key(a) && !(exists|k: int| sets_up(configured, n, k, a)) ==> after[a]
            == before[a]
}

/// Whether `after` are the inputs `before` with `value` queued as the newest
/// update of the input at the place `at`.
pub open spec fn update_queued(
    before: Seq<Input>,
    after: Seq<Input>,
    at: int,
    value: StampedValue,
) -> bool {
    &&& 0 <= at < before.len()
    &&& after.len() == before.len()
    &&& forall|k: int| 0 <= k < before.len() && k != at ==> #[trigger] after[k] == before[k]
    &&& after[at].ancestors == before[at].ancestors
    &&& after[at].value == before[at].value
    &&& after[at].updates@ == before[at].updates@.push(value)
}

/// Whether `definition` is a definition as it is first set up: it evaluates
/// `expr` over the inputs that `inputs` sets up.
pub open spec fn defined(
    definition: Definition,
    expr: ExprView<Address>,
    inputs: Seq<(Address, InputMetadata)>,
) -> bool {
    &&& definition.expr() == expr
    &&& set_up(Map::empty(), definition.inputs(), inputs, inputs.len() as int)
}

/// Whether `after` is the definition `before` once it was told to evaluate
/// `expr` instead, over the inputs it had and those that `inputs` sets up,
/// as far as `expr` reads them.
pub open spec fn redefined(
    before: Definition,
    after: Definition,
    expr: ExprView<Address>,
    inputs: Seq<(Address, InputMetadata)>,
) -> bool {
    &&& after.expr() == expr
    &&& exists|all: Map<Address, Input>|
        {
            &&& #[trigger] set_up(before.inputs(), all, inputs, inputs.len() as int)
            &&& after.inputs() == all.restrict(expr.reads().to_set())
        }
}

/// Whether `out` is the value of `definition`, stamped with the stamps of all
/// of its baselines.
pub open spec fn computed(definition: Definition, out: Option<StampedValue>) -> bool {
    match out {
        Some(value) => {
            &&& definition.evaluated() == Some(value@.value)
            &&& value@.basis == baselines_joined(
                definition.input_states(),
                definition.input_states().len(),
            )
        },
        None => definition.evaluated() is None,
    }
}

/// Whether `after` is the definition `before` with `value` queued as the
/// newest update of the input at `sender`.
pub open spec fn update_added(
    before: Definition,
    after: Definition,
    sender: Address,
    value: StampedValue,
) -> bool {
    &&& after.input_order() == before.input_order()
    &&& after.expr() == before.expr()
    &&& before.inputs().contains_key(sender)
    &&& before.input_order().contains(sender)
    &&& update_queued(
        before.input_states(),
        after.input_states(),
        before.input_order().index_of(sender),
        value,
    )
}

/// Whether `after` is the definition `before` once it has looked for a batch
/// and applied what it found, and `out` is the value that this gave. Without
/// a batch nothing changes. With one, the least batch of the chosen seed is
/// taken from the queues, and the stamp of the value is that of the batch,
/// merged with the stamps of the baselines of the inputs from which nothing
/// was taken.
pub open spec fn batch_applied(before: Definition, after: Definition, out: Option<StampedValue>) -> bool {
    &&& after.input_order() == before.input_order()
    &&& after.expr() == before.expr()
    &&& match chosen_seed(before.input_states(), before.input_states().len()) {
        None => out is None && after == before,
        Some(seed) => exists|counts: Seq<usize>, joined: Stamp|
            {
                &&& #[trigger] is_least_batch(
                    before.input_states(),
                    explored_before(before.input_states(), seed as nat),
                    seed,
                    counts,
                    joined,
                )
                &&& inputs_after(before.input_states(), after.input_states(), counts)
                &&& match out {
                    Some(value) => {
                        &&& after.evaluated() == Some(value@.value)
                        &&& value@.basis == with_untouched(
                            joined,
                            before.input_states(),
                            counts,
                            counts.len(),
                        )
                    },
                    None => after.evaluated() is None,
                }
            },
    }
}

/// Two least batches for one seed are the same batch.
pub proof fn lemma_least_batch_unique(
    inputs: Seq<Input>,
    explored: Set<int>,
    seed: int,
    counts: Seq<usize>,
    joined: Stamp,
    other: Seq<usize>,
    stamp: Stamp,
)
    requires
        is_least_batch(inputs, explored, seed, counts, joined),
        is_least_batch(inputs, explored, seed, other, stamp),
    ensures
        counts == other,
        joined == stamp,
{
    assert(below(counts, other));
    assert(below(other, counts));
    assert(counts =~= other);
    crate::basis::lemma_join_unique(joined, stamp, contributions(inputs, counts));
}

/// Where no input has an update queued, no seed has a batch.
pub proof fn lemma_no_updates_no_batch(inputs: Seq<Input>, n: nat)
    requires
        n <= inputs.len(),
        forall|i: int| 0 <= i < inputs.len() ==> (#[trigger] inputs[i]).updates@.len() == 0,
    ensures
        chosen_seed(inputs, n) is None,
    decreases n,
{
    if n > 0 {
        lemma_no_updates_no_batch(inputs, (n - 1) as nat);
        let explored = explored_before(inputs, (n - 1) as nat);
        let seed: int = n - 1;
        assert forall|counts: Seq<usize>, joined: Stamp|
            !#[trigger] is_batch(inputs, explored, seed, counts, joined) by {
            if within(inputs, explored, seed, counts) {
                assert(counts[seed] <= cap(inputs, explored, seed, seed));
            }
        }
    }
}

/// The stamp of a batch is at or ahead of the stamp of every update that the
/// batch takes.
pub proof fn lemma_batch_covers_updates(
    inputs: Seq<Input>,
    explored: Set<int>,
    seed: int,
    counts: Seq<usize>,
    joined: Stamp,
    i: int,
    j: int,
)
    requires
        is_batch(inputs, explored, seed, counts, joined),
        0 <= i < inputs.len(),
        0 <= j < counts[i],
    ensures
        stamp_le(update_basis(inputs, i, j), joined),
{
    assert(contributions(inputs, counts).contains(update_basis(inputs, i, j)));
}

/// Merging the baselines of the untouched inputs into a stamp leaves it at or
/// ahead of where it was, and at or ahead of each of those baselines.
pub proof fn lemma_with_untouched_covers(
    basis: Stamp,
    inputs: Seq<Input>,
    counts: Seq<usize>,
    n: nat,
)
    requires
        n <= inputs.len(),
        counts.len() == inputs.len(),
    ensures
        stamp_le(basis, with_untouched(basis, inputs, counts, n)),
        forall|i: int|
            0 <= i < n && counts[i] == 0 && inputs[i].value is Some ==> stamp_le(
                (#[trigger] inputs[i]).value->Some_0.basis@,
                with_untouched(basis, inputs, counts, n),
            ),
    decreases n,
{
    if n > 0 {
        lemma_with_untouched_covers(basis, inputs, counts, (n - 1) as nat);
        let earlier = with_untouched(basis, inputs, counts, (n - 1) as nat);
        let all = with_untouched(basis, inputs, counts, n);
        assert(stamp_le(earlier, all));
        assert forall|i: int|
            0 <= i < n && counts[i] == 0 && inputs[i].value is Some implies stamp_le(
            (#[trigger] inputs[i]).value->Some_0.basis@,
            all,
        ) by {
            if i < n - 1 {
                assert(stamp_le(inputs[i].value->Some_0.basis@, earlier));
            }
        }
    }
}

/// The merged stamps of the baselines are at or behind every stamp that all
/// the baselines are at or behind.
pub proof fn lemma_baselines_joined_least(inputs: Seq<Input>, n: nat, bound: Stamp)
    requires
        n <= inputs.len(),
        forall|i: int|
            0 <= i < n && inputs[i].value is Some ==> stamp_le(
                (#[trigger] inputs[i]).value->Some_0.basis@,
                bound,
            ),
    ensures
        stamp_le(baselines_joined(inputs, n), bound),
    decreases n,
{
    if n > 0 {
        lemma_baselines_joined_least(inputs, (n - 1) as nat, bound);
        let earlier = baselines_joined(inputs, (n - 1) as nat);
        if inputs[n - 1].value is Some {
            let last = inputs[n - 1].value->Some_0.basis@;
            assert(stamp_le(last, bound));
            assert forall|r: Address| stamp_latest(stamp_merge(earlier, last), r)
                <= #[trigger] stamp_latest(bound, r) by {
                assert(stamp_latest(earlier, r) <= stamp_latest(bound, r));
                assert(stamp_latest(last, r) <= stamp_latest(bound, r));
            }
        }
    }
}

/// The stamp of what a definition publishes after a batch is at or ahead of
/// the stamp of every baseline that its inputs then have: the value reflects
/// at least what each input has contributed.
pub proof fn lemma_output_covers_baselines(
    inputs: Seq<Input>,
    explored: Set<int>,
    seed: int,
    counts: Seq<usize>,
    joined: Stamp,
    after: Seq<Input>,
)
    requires
        is_batch(inputs, explored, seed, counts, joined),
        inputs_after(inputs, after, counts),
    ensures
        forall|i: int|
            0 <= i < after.len() && after[i].value is Some ==> stamp_le(
                (#[trigger] after[i]).value->Some_0.basis@,
                with_untouched(joined, inputs, counts, inputs.len()),
            ),
{
    let out = with_untouched(joined, inputs, counts, inputs.len());
    lemma_with_untouched_covers(joined, inputs, counts, inputs.len());
    assert forall|i: int| 0 <= i < after.len() && after[i].value is Some implies stamp_le(
        (#[trigger] after[i]).value->Some_0.basis@,
        out,
    ) by {
        assert(input_after(inputs[i], after[i], counts[i]));
        assert(counts[i] <= cap(inputs, explored, seed, i));
        if counts[i] > 0 {
            lemma_batch_covers_updates(inputs, explored, seed, counts, joined, i, counts[i] - 1);
            let taken = update_basis(inputs, i, counts[i] - 1);
            assert(after[i].value->Some_0.basis@ == taken);
            assert forall|r: Address| stamp_latest(taken, r) <= #[trigger] stamp_latest(out, r) by {
                assert(stamp_latest(taken, r) <= stamp_latest(joined, r));
                assert(stamp_latest(joined, r) <= stamp_latest(out, r));
            }
        } else {
            assert(stamp_le(inputs[i].value->Some_0.basis@, out));
        }
    }
}

/// The stamps that a definition publishes form a chain, where its inputs
/// do: if every update that a batch makes a baseline is at or ahead of the
/// baseline that it replaces, then the stamp of what the definition
/// publishes after the batch is at or ahead of the merged stamps of the
/// baselines before, which is the stamp of what it published last.
pub proof fn lemma_output_chain(
    inputs: Seq<Input>,
    explored: Set<int>,
    seed: int,
    counts: Seq<usize>,
    joined: Stamp,
)
    requires
        is_batch(inputs, explored, seed, counts, joined),
        forall|i: int|
            0 <= i < inputs.len() && counts[i] > 0 && inputs[i].value is Some ==> stamp_le(
                (#[trigger] inputs[i]).value->Some_0.basis@,
                update_basis(inputs, i, counts[i] - 1),
            ),
    ensures
        stamp_le(
            baselines_joined(inputs, inputs.len()),
            with_untouched(joined, inputs, counts, inputs.len()),
        ),
{
    let out = with_untouched(joined, inputs, counts, inputs.len());
    lemma_with_untouched_covers(joined, inputs, counts, inputs.len());
    assert forall|i: int| 0 <= i < inputs.len() && inputs[i].value is Some implies stamp_le(
        (#[trigger] inputs[i]).value->Some_0.basis@,
        out,
    ) by {
        let baseline = inputs[i].value->Some_0.basis@;
        assert(counts[i] <= cap(inputs, explored, seed, i));
        if counts[i] > 0 {
            lemma_batch_covers_updates(inputs, explored, seed, counts, joined, i, counts[i] - 1);
            let taken = update_basis(inputs, i, counts[i] - 1);
            assert forall|r: Address| stamp_latest(baseline, r) <= #[trigger] stamp_latest(out, r) by {
                assert(stamp_latest(baseline, r) <= stamp_latest(taken, r));
                assert(stamp_latest(taken, r) <= stamp_latest(joined, r));
                assert(stamp_latest(joined, r) <= stamp_latest(out, r));
            }
        }
    }
    lemma_baselines_joined_least(inputs, inputs.len(), out);
}

/// An expression over other nodes, with what those nodes have propagated.
#[derive(Debug, PartialEq, Eq)]
pub struct Definition {
    inputs: AddressMap<Input>,
    expr: Expr<Address>,
}

impl Definition {
    /// The inputs, by address.
    pub closed spec fn inputs(&self) -> Map<Address, Input> {
        self.inputs@
    }

    /// The addresses of the inputs, in the order in which the definition walks
    /// them.
    pub closed spec fn input_order(&self) -> Seq<Address> {
        self.inputs.keys()
    }

    /// The inputs, in the order in which the definition walks them.
    pub closed spec fn input_states(&self) -> Seq<Input> {
        self.inputs.values()
    }

    /// The expression.
    pub closed spec fn expr(&self) -> ExprView<Address> {
        self.expr@
    }

    /// The inputs stand in step: no address comes twice in the order, the
    /// addresses of the order are those of the inputs, and each input stands
    /// where its address stands. This holds of every definition.
    pub open spec fn ordered(&self) -> bool {
        &&& self.input_order().no_duplicates()
        &&& self.input_order().len() == self.input_states().len()
        &&& self.inputs().dom().finite()
        &&& self.inputs().dom().len() == self.input_order().len()
        &&& forall|a: Address| #[trigger] self.inputs().contains_key(a) <==> self.input_order().contains(a)
        &&& forall|i: int|
            0 <= i < self.input_order().len() ==> self.inputs().contains_key(
                #[trigger] self.input_order()[i],
            ) && self.inputs()[self.input_order()[i]] == self.input_states()[i]
    }

    /// The inputs of a definition stand in step: see
    /// [`Definition::ordered`].
    pub fn in_step(&self)
        ensures
            self.ordered(),
    {
        self.inputs.in_step();
        proof {
            self.inputs.lemma_view_dom();
            assert forall|i: int| 0 <= i < self.input_order().len() implies self.inputs().contains_key(
                #[trigger] self.input_order()[i],
            ) && self.inputs()[self.input_order()[i]] == self.input_states()[i] by {
                self.inputs.lemma_view_at(i);
            }
        }
    }

    /// Whether every input has a baseline.
    pub open spec fn complete(&self) -> bool {
        forall|i: int|
            0 <= i < self.input_states().len() ==> (#[trigger] self.input_states()[i]).value is Some
    }

    /// What the definition evaluates to: the value of its expression over the
    /// baselines of its inputs, where every input has a baseline and the
    /// expression reads nothing else.
    pub open spec fn evaluated(&self) -> Option<ValueView> {
        let reduced = self.expr().reduce(|ident: Address| self.known(ident));
        if self.complete() && reduced is Value {
            Some(reduced->Value_0)
        } else {
            None
        }
    }

    /// The input that shows the least and is behind `basis`, if there is one.
    fn first_unsatisfied(&self, counts: &Vec<usize>, basis: &BasisStamp) -> (at: Option<usize>)
        requires
            counts@.len() == self.input_states().len(),
            forall|k: int|
                0 <= k < counts@.len() ==> #[trigger] counts@[k]
                    <= self.input_states()[k].updates@.len(),
        ensures
            match at {
                Some(i) => i < self.input_states().len() && !stamp_prec_eq(
                    basis@,
                    current_basis(self.input_states()[i as int], counts@[i as int]),
                    self.input_states()[i as int].ancestors@,
                ),
                None => closed(self.input_states(), counts@, basis@),
            },
    {
        let n = self.inputs.len();
        let mut i: usize = 0;
        while i < n
            invariant
                n == self.input_states().len(),
                n == self.inputs.keys().len(),
                counts@.len() == n,
                i <= n,
                forall|k: int|
                    0 <= k < counts@.len() ==> #[trigger] counts@[k]
                        <= self.input_states()[k].updates@.len(),
                forall|k: int|
                    0 <= k < i ==> stamp_prec_eq(
                        basis@,
                        #[trigger] current_basis(self.input_states()[k], counts@[k]),
                        self.input_states()[k].ancestors@,
                    ),
            decreases n - i,
        {
            let input = self.inputs.value_at(i);
            let taken = counts[i];
            let satisfied = if taken > 0 {
                basis.prec_eq_wrt_roots(&input.updates[taken - 1].basis, &input.ancestors)
            } else {
                match &input.value {
                    Some(value) => basis.prec_eq_wrt_roots(&value.basis, &input.ancestors),
                    None => {
                        let nothing = BasisStamp::empty();
                        basis.prec_eq_wrt_roots(&nothing, &input.ancestors)
                    },
                }
            };
            if !satisfied {
                return Some(i);
            }
            i += 1;
        }
        None
    }

    /// Looks for the least batch for `seed`, where the inputs marked in
    /// `explored` may give updates beside the seed.
    fn try_seed(&self, seed: usize, explored: &Vec<bool>) -> (found: Option<(Vec<usize>, BasisStamp)>)
        requires
            seed < self.input_states().len(),
            explored@.len() == self.input_states().len(),
        ensures
            match found {
                Some((counts, joined)) => is_least_batch(
                    self.input_states(),
                    explored_set(explored@),
                    seed as int,
                    counts@,
                    joined@,
                ),
                None => !seed_has_batch(self.input_states(), explored_set(explored@), seed as int),
            },
    {
        let ghost inputs = self.input_states();
        let ghost marked = explored_set(explored@);
        let n = self.inputs.len();
        let seed_input = self.inputs.value_at(seed);
        if seed_input.updates.len() == 0 {
            proof {
                assert forall|counts: Seq<usize>, joined: Stamp|
                    !is_batch(inputs, marked, seed as int, counts, joined) by {
                    if within(inputs, marked, seed as int, counts) {
                        assert(counts[seed as int] <= cap(inputs, marked, seed as int, seed as int));
                    }
                }
            }
            return None;
        }
        let mut counts: Vec<usize> = Vec::new();
        let mut k: usize = 0;
        while k < n
            invariant
                k <= n,
                counts@.len() == k,
                forall|j: int| 0 <= j < k ==> counts@[j] == 0,
            decreases n - k,
        {
            counts.push(0);
            k += 1;
        }
        counts.set(seed, 1);
        let mut basis = seed_input.updates[0].basis.clone();
        proof {
            let first = update_basis(inputs, seed as int, 0);
            assert forall|p: Stamp| contributions(inputs, counts@).contains(p) implies p == first by {
                let (a, b) = choose|a: int, b: int|
                    0 <= a < inputs.len() && 0 <= b < counts@[a] && p == #[trigger] update_basis(
                        inputs,
                        a,
                        b,
                    );
                assert(a == seed && b == 0);
            }
            assert(contributions(inputs, counts@).contains(first)) by {
                assert(0 <= 0 < counts@[seed as int] && first == update_basis(inputs, seed as int, 0));
            }
            assert(contributions(inputs, counts@) =~= set![first]);
            lemma_join_single(first);
            assert forall|other: Seq<usize>, stamp: Stamp| #[trigger]
                is_batch(inputs, marked, seed as int, other, stamp) implies below(
                counts@,
                other,
            ) by {
                assert(other[seed as int] >= 1);
            }
            assert forall|i: int| 0 <= i < inputs.len() implies #[trigger] counts@[i] <= cap(
                inputs,
                marked,
                seed as int,
                i,
            ) by {}
        }
        loop
            invariant
                inputs == self.input_states(),
                marked == explored_set(explored@),
                n == inputs.len(),
                n == self.inputs.keys().len(),
                seed < n,
                explored@.len() == n,
                within(inputs, marked, seed as int, counts@),
                stamp_is_join(basis@, contributions(inputs, counts@)),
                forall|other: Seq<usize>, stamp: Stamp| #[trigger]
                    is_batch(inputs, marked, seed as int, other, stamp) ==> below(counts@, other),
            decreases remaining(inputs, counts@, n as nat),
        {
            proof {
                assert forall|k: int| 0 <= k < counts@.len() implies #[trigger] counts@[k]
                    <= inputs[k].updates@.len() by {
                    assert(counts@[k] <= cap(inputs, marked, seed as int, k));
                }
            }
            match self.first_unsatisfied(&counts, &basis) {
                None => {
                    return Some((counts, basis));
                },
                Some(i) => {
                    let input = self.inputs.value_at(i);
                    let available = if i == seed || explored[i] {
                        input.updates.len()
                    } else {
                        0
                    };
                    let taken = counts[i];
                    proof {
                        assert(available == cap(inputs, marked, seed as int, i as int));
                        assert forall|other: Seq<usize>, stamp: Stamp| #[trigger]
                            is_batch(inputs, marked, seed as int, other, stamp) implies taken
                            < other[i as int] by {
                            lemma_forced(
                                inputs,
                                marked,
                                seed as int,
                                counts@,
                                basis@,
                                i as int,
                                other,
                                stamp,
                            );
                        }
                    }
                    if taken >= available {
                        proof {
                            assert forall|other: Seq<usize>, stamp: Stamp|
                                !is_batch(inputs, marked, seed as int, other, stamp) by {
                                if is_batch(inputs, marked, seed as int, other, stamp) {
                                    assert(other[i as int] <= cap(
                                        inputs,
                                        marked,
                                        seed as int,
                                        i as int,
                                    ));
                                }
                            }
                        }
                        return None;
                    }
                    let ghost before = counts@;
                    let ghost joined = basis@;
                    basis.merge_from(&input.updates[taken].basis);
                    counts.set(i, taken + 1);
                    proof {
                        assert(counts@ == before.update(i as int, (before[i as int] + 1) as usize));
                        lemma_contributions_step(inputs, before, i as int);
                        lemma_join_insert(
                            joined,
                            contributions(inputs, before),
                            update_basis(inputs, i as int, taken as int),
                        );
                        lemma_remaining_step(inputs, before, i as int, n as nat);
                        assert forall|k: int| 0 <= k < inputs.len() implies #[trigger] counts@[k]
                            <= inputs[k].updates@.len() by {
                            if k != i {
                                assert(before[k] <= cap(inputs, marked, seed as int, k));
                            }
                        }
                        lemma_remaining_nonnegative(inputs, counts@, n as nat);
                        assert forall|other: Seq<usize>, stamp: Stamp| #[trigger]
                            is_batch(inputs, marked, seed as int, other, stamp) implies below(
                            counts@,
                            other,
                        ) by {
                            assert(below(before, other));
                            assert forall|k: int| 0 <= k < counts@.len() implies #[trigger] counts@[k]
                                <= other[k] by {
                                if k != i {
                                    assert(before[k] <= other[k]);
                                }
                            }
                        }
                        assert forall|k: int| 0 <= k < inputs.len() implies #[trigger] counts@[k]
                            <= cap(inputs, marked, seed as int, k) by {
                            if k != i {
                                assert(before[k] <= cap(inputs, marked, seed as int, k));
                            }
                        }
                    }
                },
            }
        }
    }
}

impl Definition {
    /// Adds to `inputs` the inputs that `configured` sets up.
    fn set_up_inputs(inputs: &mut AddressMap<Input>, configured: &Vec<(Address, InputMetadata)>)
        ensures
            set_up(old(inputs)@, final(inputs)@, configured@, configured@.len() as int),
    {
        let ghost before = inputs@;
        let mut i: usize = 0;
        while i < configured.len()
            invariant
                i <= configured@.len(),
                set_up(before, inputs@, configured@, i as int),
            decreases configured@.len() - i,
        {
            let ghost mid = inputs@;
            let address = configured[i].0;
            let input = Input::new(configured[i].1.ancestors.clone());
            let _ = inputs.insert(address, input);
            proof {
                let cfg = configured@;
                let n = i as int;
                let m = n + 1;
                assert(sets_up(cfg, m, n, address));
                assert forall|a: Address, k: int| a != address implies (sets_up(cfg, m, k, a)
                    <==> sets_up(cfg, n, k, a)) by {
                    if sets_up(cfg, n, k, a) {
                        assert forall|j: int| k < j < m implies (#[trigger] cfg[j]).0 != a by {}
                    }
                }
                assert forall|k: int| sets_up(cfg, m, k, address) implies k == n by {
                    if k < n {
                        assert(cfg[n].0 != address);
                    }
                }
                assert forall|a: Address|
                    #![trigger inputs@.contains_key(a)]
                    inputs@.contains_key(a) <==> before.contains_key(a) || exists|k: int|
                        sets_up(cfg, m, k, a) by {
                    if a != address {
                        assert(mid.contains_key(a) <==> before.contains_key(a) || exists|k: int|
                            sets_up(cfg, n, k, a));
                        if exists|k: int| sets_up(cfg, n, k, a) {
                            let k = choose|k: int| sets_up(cfg, n, k, a);
                            assert(sets_up(cfg, m, k, a));
                        }
                        if exists|k: int| sets_up(cfg, m, k, a) {
                            let k = choose|k: int| sets_up(cfg, m, k, a);
                            assert(sets_up(cfg, n, k, a));
                        }
                    }
                }
                assert forall|a: Address, k: int| #[trigger]
                    sets_up(cfg, m, k, a) implies inputs@.contains_key(a) && fresh_from(
                    inputs@[a],
                    cfg[k].1,
                ) by {
                    if a != address {
                        assert(sets_up(cfg, n, k, a));
                    }
                }
                assert forall|a: Address|
                    #![trigger inputs@[a]]
                    before.contains_key(a) && !(exists|k: int| sets_up(cfg, m, k, a))
                        implies inputs@[a] == before[a] by {
                    assert(a != address);
                    if exists|k: int| sets_up(cfg, n, k, a) {
                        let k = choose|k: int| sets_up(cfg, n, k, a);
                        assert(sets_up(cfg, m, k, a));
                    }
                    assert(mid[a] == before[a]);
                }
            }
            i += 1;
        }
    }

    /// A definition that evaluates `expr` over the inputs that `inputs` sets
    /// up. No input has a baseline yet, so the definition has no value.
    pub fn new(expr: Expr<Address>, inputs: Vec<(Address, InputMetadata)>) -> (definition: Definition)
        ensures
            defined(definition, expr@, inputs@),
            definition.ordered(),
    {
        let mut map: AddressMap<Input> = AddressMap::new();
        Self::set_up_inputs(&mut map, &inputs);
        let definition = Definition { inputs: map, expr };
        definition.in_step();
        definition
    }

    /// Replaces the expression, sets up the inputs that `new_inputs` names
    /// (afresh, where they were inputs before), and drops the inputs that the
    /// new expression never reads. Returns the value of the new expression, if
    /// it has one: see [`Definition::compute`].
    pub fn reconfigure(&mut self, new_expr: Expr<Address>, new_inputs: Vec<(Address, InputMetadata)>) -> (out:
        Option<StampedValue>)
        ensures
            redefined(*old(self), *final(self), new_expr@, new_inputs@),
            computed(*final(self), out),
            final(self).ordered(),
    {
        self.expr = new_expr;
        Self::set_up_inputs(&mut self.inputs, &new_inputs);
        let ghost all = self.inputs@;
        let ghost reads = self.expr@.reads();
        let mut visited: Vec<(&Address, bool)> = Vec::new();
        self.expr.visit_reads(&mut visited);
        proof {
            assert forall|j: int| 0 <= j < reads.len() implies *(#[trigger] visited@[j]).0
                == reads[j] by {
                let nothing = Seq::<(&Address, bool)>::empty();
                assert(*(visited@[nothing.len() + j]).0 == reads[j]);
            }
        }
        let mut referenced = AddressSet::new();
        let mut k: usize = 0;
        while k < visited.len()
            invariant
                k <= visited@.len(),
                visited@.len() == reads.len(),
                forall|j: int| 0 <= j < reads.len() ==> *(#[trigger] visited@[j]).0 == reads[j],
                forall|a: Address|
                    referenced@.contains(a) <==> reads.take(k as int).contains(a),
            decreases visited@.len() - k,
        {
            let address = *visited[k].0;
            let _ = referenced.insert(address);
            proof {
                let taken = reads.take(k as int);
                let next = reads.take(k + 1);
                assert(next =~= taken.push(address));
                assert forall|a: Address| referenced@.contains(a) <==> next.contains(a) by {
                    if taken.contains(a) {
                        let j = taken.index_of(a);
                        assert(next[j] == a);
                    }
                    if a == address {
                        assert(next[k as int] == a);
                    }
                    if next.contains(a) {
                        let j = next.index_of(a);
                        if j < k {
                            assert(taken[j] == a);
                        }
                    }
                }
            }
            k += 1;
        }
        proof {
            assert(reads.take(reads.len() as int) =~= reads);
            assert(referenced@ =~= reads.to_set());
        }
        let mut i: usize = self.inputs.len();
        while i > 0
            invariant
                i <= self.inputs.keys().len(),
                self.expr@ == new_expr@,
                forall|a: Address|
                    #![trigger self.inputs@.contains_key(a)]
                    self.inputs@.contains_key(a) ==> all.contains_key(a) && self.inputs@[a]
                        == all[a],
                forall|a: Address|
                    #![trigger self.inputs@.contains_key(a)]
                    all.contains_key(a) && referenced@.contains(a) ==> self.inputs@.contains_key(a),
                forall|j: int|
                    i <= j < self.inputs.keys().len() ==> referenced@.contains(
                        #[trigger] self.inputs.keys()[j],
                    ),
            decreases i,
        {
            i -= 1;
            let address = self.inputs.key_at(i);
            if !referenced.contains(address) {
                let ghost keys = self.inputs.keys();
                let ghost mid = self.inputs@;
                self.inputs.in_step();
                proof {
                    assert forall|a: Address| #[trigger] mid.contains_key(a) implies all.contains_key(a)
                        && mid[a] == all[a] by {}
                    assert forall|a: Address|
                        all.contains_key(a) && referenced@.contains(a) implies #[trigger] mid.contains_key(
                        a,
                    ) by {}
                }
                let _ = self.inputs.remove(address);
                proof {
                    assert forall|a: Address| #[trigger]
                        self.inputs@.contains_key(a) implies all.contains_key(a) && self.inputs@[a]
                        == all[a] by {
                        assert(mid.contains_key(a) && a != address);
                        assert(self.inputs@[a] == mid[a]);
                    }
                    assert forall|a: Address|
                        all.contains_key(a) && referenced@.contains(a) implies #[trigger] self.inputs@.contains_key(
                        a,
                    ) by {
                        assert(mid.contains_key(a));
                    }
                    assert(keys.index_of(address) == i) by {
                        crate::address_map::lemma_index_of_unique(keys, i as int);
                    }
                    assert forall|j: int| i <= j < self.inputs.keys().len() implies referenced@.contains(
                        #[trigger] self.inputs.keys()[j],
                    ) by {
                        assert(self.inputs.keys()[j] == keys[j + 1]);
                    }
                }
            }
        }
        self.inputs.in_step();
        proof {
            self.inputs.lemma_view_dom();
            assert forall|a: Address| #[trigger]
                self.inputs@.contains_key(a) implies referenced@.contains(a) by {
                let j = self.inputs.keys().index_of(a);
                assert(self.inputs.keys()[j] == a);
            }
            assert(self.inputs@ =~= all.restrict(reads.to_set()));
            assert(set_up(old(self).inputs(), all, new_inputs@, new_inputs@.len() as int));
            assert(self.inputs() == all.restrict(new_expr@.reads().to_set()));
        }
        self.in_step();
        self.compute()
    }

    /// The value of the expression over the baselines of the inputs, stamped
    /// with the stamps of all the baselines, merged. There is no value while
    /// some input has no baseline, or where the expression reads what is no
    /// input.
    pub fn compute(&self) -> (out: Option<StampedValue>)
        ensures
            computed(*self, out),
    {
        let mut basis = BasisStamp::empty();
        let n = self.inputs.len();
        let mut i: usize = 0;
        while i < n
            invariant
                i <= n,
                n == self.inputs.keys().len(),
                n == self.input_states().len(),
                basis@ == baselines_joined(self.input_states(), i as nat),
                forall|k: int| 0 <= k < i ==> (#[trigger] self.input_states()[k]).value is Some,
            decreases n - i,
        {
            match &self.inputs.value_at(i).value {
                Some(value) => {
                    basis.merge_from(&value.basis);
                },
                None => {
                    return None;
                },
            }
            i += 1;
        }
        let mut expr = self.expr.clone();
        expr.eval(self);
        match expr {
            Expr::Value(value) => Some(StampedValue { value, basis }),
            _ => None,
        }
    }

    /// The variables from which the value of the definition derives: the
    /// ancestors of all of its inputs.
    pub fn ancestors(&self) -> (ancestors: AddressSet)
        ensures
            ancestors@ == all_ancestors(self.input_states()),
    {
        let mut ancestors = AddressSet::new();
        let n = self.inputs.len();
        let mut i: usize = 0;
        while i < n
            invariant
                i <= n,
                n == self.inputs.keys().len(),
                n == self.input_states().len(),
                forall|a: Address|
                    ancestors@.contains(a) <==> exists|k: int|
                        0 <= k < i && (#[trigger] self.input_states()[k]).ancestors@.contains(a),
            decreases n - i,
        {
            let input = self.inputs.value_at(i);
            let m = input.ancestors.len();
            let mut j: usize = 0;
            while j < m
                invariant
                    j <= m,
                    i < n,
                    m == input.ancestors.members().len(),
                    *input == self.input_states()[i as int],
                    forall|a: Address|
                        ancestors@.contains(a) <==> (exists|k: int|
                            0 <= k < i && (#[trigger] self.input_states()[k]).ancestors@.contains(a))
                            || input.ancestors.members().take(j as int).contains(a),
                decreases m - j,
            {
                let address = input.ancestors.member_at(j);
                let _ = ancestors.insert(address);
                proof {
                    let taken = input.ancestors.members().take(j as int);
                    let next = input.ancestors.members().take(j + 1);
                    assert(next =~= taken.push(address));
                    assert forall|a: Address| next.contains(a) <==> taken.contains(a) || a
                        == address by {
                        if taken.contains(a) {
                            let x = taken.index_of(a);
                            assert(next[x] == a);
                        }
                        if a == address {
                            assert(next[j as int] == a);
                        }
                        if next.contains(a) {
                            let x = next.index_of(a);
                            if x < j {
                                assert(taken[x] == a);
                            }
                        }
                    }
                }
                j += 1;
            }
            proof {
                assert(input.ancestors.members().take(m as int) =~= input.ancestors.members());
                assert forall|a: Address|
                    ancestors@.contains(a) <==> exists|k: int|
                        0 <= k < i + 1 && (#[trigger] self.input_states()[k]).ancestors@.contains(
                            a,
                        ) by {
                    if input.ancestors.members().contains(a) {
                        assert(self.input_states()[i as int].ancestors@.contains(a));
                    }
                    if exists|k: int|
                        0 <= k < i + 1 && (#[trigger] self.input_states()[k]).ancestors@.contains(a) {
                        let k = choose|k: int|
                            0 <= k < i + 1 && (#[trigger] self.input_states()[k]).ancestors@.contains(
                                a,
                            );
                        if k == i {
                            assert(input.ancestors.members().contains(a));
                        }
                    }
                }
            }
            i += 1;
        }
        proof {
            assert(ancestors@ =~= all_ancestors(self.input_states()));
        }
        ancestors
    }

    /// The addresses of the inputs, in the order in which the definition
    /// walks them.
    pub fn input_addresses(&self) -> (addresses: Vec<Address>)
        ensures
            addresses@ == self.input_order(),
    {
        let mut addresses: Vec<Address> = Vec::new();
        let n = self.inputs.len();
        let mut i: usize = 0;
        while i < n
            invariant
                i <= n,
                n == self.inputs.keys().len(),
                addresses@ == self.inputs.keys().take(i as int),
            decreases n - i,
        {
            addresses.push(self.inputs.key_at(i));
            i += 1;
            proof {
                assert(addresses@ =~= self.inputs.keys().take(i as int));
            }
        }
        proof {
            assert(addresses@ =~= self.inputs.keys());
        }
        addresses
    }

    /// Whether the node at `sender` is one of the inputs.
    pub fn has_input(&self, sender: Address) -> (known: bool)
        ensures
            known == self.inputs().contains_key(sender),
    {
        self.inputs.contains_key(sender)
    }

    /// Queues `value` as the newest update of the input at `sender`, which
    /// must be one of the inputs: an update from any other node breaks the
    /// protocol. Nothing is evaluated here.
    pub fn add_update(&mut self, sender: Address, value: StampedValue)
        requires
            old(self).inputs().contains_key(sender),
        ensures
            final(self).ordered(),
            update_added(*old(self), *final(self), sender, value),
    {
        match self.inputs.find(sender) {
            Some(i) => {
                self.inputs.in_step();
                proof {
                    assert(self.inputs.keys().contains(sender));
                }
                let input = self.inputs.value_at_mut(i);
                input.updates.push(value);
            },
            None => {},
        }
        self.in_step();
    }
}

impl ExprEvalContext<Address> for Definition {
    open spec fn known(&self, ident: Address) -> Option<ValueView> {
        baseline_of(self.inputs(), ident)
    }

    fn read(&self, ident: &Address) -> (value: Option<&Value>) {
        match self.inputs.get(*ident) {
            Some(input) => match &input.value {
                Some(stamped) => Some(&stamped.value),
                None => None,
            },
            None => None,
        }
    }
}

impl Definition {
    /// Tries every input as a seed, in order, and returns the least batch of
    /// the last seed that has one. An input that was tried and had no batch
    /// counts as explored from then on: the seeds after it may take updates
    /// from it.
    pub fn find_batch(&self) -> (found: Option<(Vec<usize>, BasisStamp)>)
        ensures
            match found {
                Some((counts, joined)) => {
                    &&& chosen_seed(self.input_states(), self.input_states().len()) is Some
                    &&& is_least_batch(
                        self.input_states(),
                        explored_before(
                            self.input_states(),
                            chosen_seed(
                                self.input_states(),
                                self.input_states().len(),
                            )->Some_0 as nat,
                        ),
                        chosen_seed(self.input_states(), self.input_states().len())->Some_0,
                        counts@,
                        joined@,
                    )
                },
                None => chosen_seed(self.input_states(), self.input_states().len()) is None,
            },
    {
        let ghost inputs = self.input_states();
        let n = self.inputs.len();
        let mut explored: Vec<bool> = Vec::new();
        let mut k: usize = 0;
        while k < n
            invariant
                k <= n,
                explored@.len() == k,
                forall|j: int| 0 <= j < k ==> !explored@[j],
            decreases n - k,
        {
            explored.push(false);
            k += 1;
        }
        proof {
            assert(explored_set(explored@) =~= explored_before(inputs, 0));
        }
        let mut found: Option<(Vec<usize>, BasisStamp)> = None;
        let mut seed: usize = 0;
        while seed < n
            invariant
                inputs == self.input_states(),
                n == inputs.len(),
                seed <= n,
                explored@.len() == n,
                explored_set(explored@) == explored_before(inputs, seed as nat),
                match found {
                    Some((counts, joined)) => {
                        &&& chosen_seed(inputs, seed as nat) is Some
                        &&& is_least_batch(
                            inputs,
                            explored_before(inputs, chosen_seed(inputs, seed as nat)->Some_0 as nat),
                            chosen_seed(inputs, seed as nat)->Some_0,
                            counts@,
                            joined@,
                        )
                    },
                    None => chosen_seed(inputs, seed as nat) is None,
                },
            decreases n - seed,
        {
            let ghost marked = explored_set(explored@);
            match self.try_seed(seed, &explored) {
                Some(batch) => {
                    proof {
                        assert(is_batch(inputs, marked, seed as int, batch.0@, batch.1@));
                        assert(seed_has_batch(inputs, marked, seed as int));
                    }
                    found = Some(batch);
                },
                None => {
                    explored.set(seed, true);
                    proof {
                        assert(explored_set(explored@) =~= marked.insert(seed as int));
                    }
                },
            }
            seed += 1;
        }
        found
    }

    /// Takes `counts[i]` updates from the front of the queue of each input
    /// `i`, makes the last of them the input's baseline, and evaluates the
    /// expression over the baselines. The stamp of the value is `basis`,
    /// merged with the stamps of the baselines of the inputs from which
    /// nothing was taken. No value comes back while some input has no
    /// baseline, or where the expression reads what is no input.
    pub fn apply_batch(&mut self, counts: &Vec<usize>, basis: BasisStamp) -> (out: Option<
        StampedValue,
    >)
        requires
            counts@.len() == old(self).input_states().len(),
            forall|i: int|
                0 <= i < counts@.len() ==> #[trigger] counts@[i] <= old(self).input_states()[i].updates@.len(),
        ensures
            final(self).ordered(),
            final(self).input_order() == old(self).input_order(),
            final(self).expr() == old(self).expr(),
            inputs_after(old(self).input_states(), final(self).input_states(), counts@),
            match out {
                Some(value) => {
                    &&& final(self).evaluated() == Some(value@.value)
                    &&& value@.basis == with_untouched(
                        basis@,
                        old(self).input_states(),
                        counts@,
                        counts@.len(),
                    )
                },
                None => final(self).evaluated() is None,
            },
    {
        let ghost inputs0 = self.input_states();
        let ghost basis0 = basis@;
        let mut basis = basis;
        let mut complete = true;
        let n = self.inputs.len();
        let mut i: usize = 0;
        while i < n
            invariant
                i <= n,
                n == inputs0.len(),
                counts@.len() == n,
                self.inputs.keys() == old(self).inputs.keys(),
                self.inputs.keys().len() == n,
                self.expr == old(self).expr,
                self.input_states().len() == n,
                forall|k: int|
                    0 <= k < counts@.len() ==> #[trigger] counts@[k] <= inputs0[k].updates@.len(),
                forall|k: int|
                    0 <= k < i ==> input_after(inputs0[k], #[trigger] self.input_states()[k], counts@[k]),
                forall|k: int| i <= k < n ==> #[trigger] self.input_states()[k] == inputs0[k],
                basis@ == with_untouched(basis0, inputs0, counts@, i as nat),
                complete == forall|k: int|
                    0 <= k < i ==> (#[trigger] self.input_states()[k]).value is Some,
            decreases n - i,
        {
            let taken = counts[i];
            let ghost states = self.input_states();
            let ghost complete_before = complete;
            let input = self.inputs.value_at_mut(i);
            if taken > 0 {
                let rest = input.updates.split_off(taken);
                let last = input.updates.pop();
                input.value = last;
                input.updates = rest;
            } else {
                match &input.value {
                    Some(value) => {
                        basis.merge_from(&value.basis);
                    },
                    None => {
                        complete = false;
                    },
                }
            }
            proof {
                let now = self.input_states();
                assert(input_after(inputs0[i as int], now[i as int], taken)) by {
                    if taken > 0 {
                        assert(now[i as int].updates@ =~= inputs0[i as int].updates@.skip(
                            taken as int,
                        ));
                    } else {
                        assert(now[i as int].updates@ =~= inputs0[i as int].updates@.skip(0));
                    }
                }
                assert forall|k: int| 0 <= k < i implies input_after(
                    inputs0[k],
                    #[trigger] now[k],
                    counts@[k],
                ) by {
                    assert(now[k] == states[k]);
                }
                assert forall|k: int| i < k < n implies #[trigger] now[k] == inputs0[k] by {
                    assert(now[k] == states[k]);
                }
                assert(now[i as int].value is Some == (taken > 0 || inputs0[i as int].value is Some));
                if complete {
                    assert forall|k: int| 0 <= k < i + 1 implies (#[trigger] now[k]).value is Some by {
                        if k < i {
                            assert(states[k].value is Some);
                            assert(now[k] == states[k]);
                        }
                    }
                } else if !complete_before {
                    let k = choose|k: int| 0 <= k < i && !((#[trigger] states[k]).value is Some);
                    assert(now[k] == states[k]);
                    assert(!(now[k].value is Some));
                } else {
                    assert(!(now[i as int].value is Some));
                }
            }
            i += 1;
        }
        self.in_step();
        if !complete {
            return None;
        }
        let mut expr = self.expr.clone();
        expr.eval(&*self);
        match expr {
            Expr::Value(value) => Some(StampedValue { value, basis }),
            _ => None,
        }
    }

    /// Looks for a batch and, where there is one, applies it: see
    /// [`Definition::find_batch`] and [`Definition::apply_batch`]. Without a
    /// batch nothing changes.
    pub fn find_and_apply_batch(&mut self) -> (out: Option<StampedValue>)
        ensures
            batch_applied(*old(self), *final(self), out),
            final(self).ordered(),
    {
        self.in_step();
        match self.find_batch() {
            None => None,
            Some((counts, basis)) => {
                let ghost joined = basis@;
                proof {
                    let inputs = self.input_states();
                    let seed = chosen_seed(inputs, inputs.len())->Some_0;
                    let explored = explored_before(inputs, seed as nat);
                    assert forall|i: int| 0 <= i < counts@.len() implies #[trigger] counts@[i]
                        <= inputs[i].updates@.len() by {
                        assert(counts@[i] <= cap(inputs, explored, seed, i));
                    }
                }
                let out = self.apply_batch(&counts, basis);
                out
            },
        }
    }
}

} // verus!
