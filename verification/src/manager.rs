//! The manager: it takes on the actions and upgrades of its clients, gives
//! each a transaction, and takes the transactions forward as the nodes
//! answer.

use crate::actor::{Address, Context, Envelope};
use crate::reactive::Host;
use crate::directory::Directory;
use crate::expr::{Action, Upgrade};
use crate::basis::BasisStamp;
use crate::message::{Message, MonotonicTimestampGenerator, Timestamp, TxId, TxPriority, Violation};
use crate::transaction::{released_with, sent_by, Transaction, TransactionError, TransactionKind};
use crate::tx_map::{tx_has, tx_index_of, tx_inserted, tx_sorted, TxMap};
use vstd::prelude::*;

verus! {

/// Whether a transaction is entered under its own identifier, with no write
/// that waits to be sent.
pub open spec fn entered(entry: (TxId, Transaction)) -> bool {
    entry.1.state().id() == entry.0 && entry.1.wf()
}

/// How a transaction ended.
#[derive(Debug, Clone, Copy, PartialEq, Eq, Structural)]
pub enum Outcome {
    /// The transaction has committed what it did.
    Completed,
    /// The transaction has given up, and nothing of what it did remains.
    Aborted,
}

/// The messages with which the manager at `me` gives up the locks of the
/// transaction `txid` on the nodes `held`, in order.
pub open spec fn aborts(held: Seq<Address>, txid: TxId, me: Address) -> Seq<Envelope> {
    Seq::new(
        held.len(),
        |i: int| Envelope { sender: me, target: held[i], message: Message::Abort { txid } },
    )
}

/// The transaction that asks for a lock with `message`, if `message` asks
/// for a lock.
pub open spec fn asks_for_lock(message: Message) -> Option<TxId> {
    match message {
        Message::Lock { txid, .. } => Some(txid),
        _ => None,
    }
}

/// A pass of a transaction that has just taken note of something is a pass
/// of the manager as it was before the note was taken: the note changes the
/// transaction alone.
proof fn lemma_evaluated_after_note<A: Host>(
    now: Manager,
    noted: Manager,
    before: Manager,
    txid: TxId,
    start: Transaction,
    ctx: Context<A>,
    after: Context<A>,
)
    requires
        now.evaluated(noted, txid, start, ctx, after),
        tx_sorted(before.transactions()),
        tx_has(before.transactions(), txid),
        noted.transactions() == before.transactions().update(
            tx_index_of(before.transactions(), txid),
            (txid, start),
        ),
        noted.directory() == before.directory(),
        noted.outcomes() == before.outcomes(),
        noted.latest() == before.latest(),
    ensures
        now.evaluated(before, txid, start, ctx, after),
{
    let at = tx_index_of(before.transactions(), txid);
    let entries = before.transactions();
    let held = noted.transactions();
    assert forall|i: int, j: int| 0 <= i < j < held.len() implies (#[trigger] held[i]).0.spec_lt(
        (#[trigger] held[j]).0,
    ) by {
        assert(entries[i].0.spec_lt(entries[j].0));
    }
    assert(held[at] == (txid, start));
    crate::tx_map::lemma_index_unique(held, at);
    let (passed, outcome, mid) = choose|
        passed: Transaction,
        outcome: Result<bool, TransactionError>,
        mid: Context<A>,
    |
        {
            &&& #[trigger] passed.pass(start, ctx, mid, noted.directory(), now.directory(), outcome)
            &&& now.settled(noted, txid, passed, outcome, mid, after)
        };
    assert(held.remove(at) =~= entries.remove(at));
    assert(held.update(at, (txid, passed)) =~= entries.update(at, (txid, passed)));
    assert(passed.pass(start, ctx, mid, before.directory(), now.directory(), outcome));
    assert(now.settled(before, txid, passed, outcome, mid, after));
}

/// A manager.
pub struct Manager {
    timestamp_generator: MonotonicTimestampGenerator,
    transactions: TxMap<Transaction>,
    directory: Directory,
    outcomes: Vec<(TxId, Outcome)>,
}

impl Manager {
    /// The transactions that are under way, oldest first.
    pub closed spec fn transactions(&self) -> Seq<(TxId, Transaction)> {
        self.transactions@
    }

    /// The directory.
    pub closed spec fn directory(&self) -> Directory {
        self.directory
    }

    /// The transactions that have ended, in the order in which they ended,
    /// each with how it ended.
    pub closed spec fn outcomes(&self) -> Seq<(TxId, Outcome)> {
        self.outcomes@
    }

    /// The last timestamp that the manager has given a transaction.
    pub closed spec fn latest(&self) -> Timestamp {
        self.timestamp_generator.latest()
    }

    /// Every transaction is entered under its own identifier, and none has
    /// a write that waits to be sent.
    pub open spec fn wf(&self) -> bool {
        forall|i: int| 0 <= i < self.transactions().len() ==> entered(#[trigger] self.transactions()[i])
    }

    /// Whether this is the manager `before` once its transaction `txid` has
    /// become `after` in a pass that ended as `outcome` and left the context
    /// `mid`, and `ctx` is the context after that. A transaction that is not
    /// done stays, as it has become. One that is done is recorded as
    /// completed and forgotten. One that has failed gives up its locks, and
    /// is recorded as aborted and forgotten.
    pub open spec fn settled<A>(
        &self,
        before: Manager,
        txid: TxId,
        after: Transaction,
        outcome: Result<bool, TransactionError>,
        mid: Context<A>,
        ctx: Context<A>,
    ) -> bool {
        let at = tx_index_of(before.transactions(), txid);
        match outcome {
            Ok(done) => {
                &&& ctx == mid
                &&& if done {
                    &&& self.transactions() == before.transactions().remove(at)
                    &&& self.outcomes() == before.outcomes().push((txid, Outcome::Completed))
                } else {
                    &&& self.transactions() == before.transactions().update(at, (txid, after))
                    &&& self.outcomes() == before.outcomes()
                }
            },
            Err(_) => {
                &&& self.transactions() == before.transactions().remove(at)
                &&& self.outcomes() == before.outcomes().push((txid, Outcome::Aborted))
                &&& ctx.extends(&mid)
                &&& ctx.spawned() == mid.spawned()
                &&& ctx.retired() == mid.retired()
                &&& ctx.sent() == mid.sent() + aborts(after.state().lock_order(), txid, mid.spec_me())
            },
        }
    }

    /// Whether this is the manager `before` once its transaction `txid`,
    /// which was `start`, has gone through one pass, and `after` is what has
    /// become of the context `ctx`: see [`Transaction::pass`] and
    /// [`Manager::settled`].
    pub open spec fn evaluated<A: Host>(
        &self,
        before: Manager,
        txid: TxId,
        start: Transaction,
        ctx: Context<A>,
        after: Context<A>,
    ) -> bool {
        &&& self.latest() == before.latest()
        &&& exists|passed: Transaction, outcome: Result<bool, TransactionError>, mid: Context<A>|
            {
                &&& #[trigger] passed.pass(
                    start,
                    ctx,
                    mid,
                    before.directory(),
                    self.directory(),
                    outcome,
                )
                &&& self.settled(before, txid, passed, outcome, mid, after)
            }
    }

    /// Whether this manager is as `before` was.
    pub open spec fn unchanged(&self, before: Manager) -> bool {
        &&& self.transactions() == before.transactions()
        &&& self.outcomes() == before.outcomes()
        &&& self.latest() == before.latest()
        &&& self.directory() == before.directory()
    }

    /// Whether this is the manager `before` once it has given its
    /// transaction `txid` up: the transaction is recorded as aborted and
    /// forgotten.
    pub open spec fn gave_up(&self, before: Manager, txid: TxId) -> bool {
        &&& self.transactions() == before.transactions().remove(
            tx_index_of(before.transactions(), txid),
        )
        &&& self.outcomes() == before.outcomes().push((txid, Outcome::Aborted))
        &&& self.latest() == before.latest()
        &&& self.directory() == before.directory()
    }

    /// Whether this is the manager `before` once it has taken on the
    /// transaction `fresh` under the identifier `id`, whose timestamp is the
    /// last that the manager has given from then on.
    pub open spec fn took_on(&self, before: Manager, id: TxId, fresh: Transaction) -> bool {
        &&& tx_inserted(before.transactions(), self.transactions(), id, fresh)
        &&& self.directory() == before.directory()
        &&& self.outcomes() == before.outcomes()
        &&& self.latest() == id.timestamp
    }

    /// Whether this is the manager `before` at the address of `ctx` once it
    /// was asked to start a transaction for `kind` while the clock read
    /// `now`, and `after` is what has become of `ctx`. The timestamp is the
    /// one that follows the last: see
    /// [`MonotonicTimestampGenerator::next_after`]. Where none is left,
    /// nothing is done and `txid` is `None`. Else `txid` is the identifier of
    /// the transaction: actions run at low priority, upgrades at high
    /// priority. The transaction is taken on and goes through its first
    /// pass: see [`Manager::evaluated`].
    pub open spec fn started<A: Host>(
        &self,
        before: Manager,
        kind: TransactionKind,
        now: u64,
        ctx: Context<A>,
        after: Context<A>,
        txid: Option<TxId>,
    ) -> bool {
        let micros = MonotonicTimestampGenerator::next_after(before.latest(), now);
        if micros > u64::MAX {
            &&& txid is None
            &&& self.transactions() == before.transactions()
            &&& self.outcomes() == before.outcomes()
            &&& self.latest() == before.latest()
            &&& self.directory() == before.directory()
            &&& after == ctx
        } else {
            let id = TxId {
                priority: if kind is Action {
                    TxPriority::Low
                } else {
                    TxPriority::High
                },
                timestamp: Timestamp { epoch_micros: micros as u64 },
                address: ctx.spec_me(),
            };
            &&& txid == Some(id)
            &&& self.launched(before, id, kind, ctx, after)
        }
    }

    /// Whether this is the manager `before` once it has taken on a
    /// transaction for `kind` under the identifier `id` and has taken it
    /// through its first pass, and `after` is what has become of `ctx`.
    pub open spec fn launched<A: Host>(
        &self,
        before: Manager,
        id: TxId,
        kind: TransactionKind,
        ctx: Context<A>,
        after: Context<A>,
    ) -> bool {
        exists|entered: Manager, fresh: Transaction|
            {
                &&& #[trigger] self.evaluated(entered, id, fresh, ctx, after)
                &&& fresh.fresh(id, kind)
                &&& entered.took_on(before, id, fresh)
            }
    }

    /// A manager that knows the managers `seed_peers` and has nothing under
    /// way.
    pub fn new(seed_peers: &Vec<Address>) -> (manager: Manager)
        ensures
            manager.wf(),
            manager.transactions() == Seq::<(TxId, Transaction)>::empty(),
            manager.outcomes() == Seq::<(TxId, Outcome)>::empty(),
            manager.latest().epoch_micros == 0,
            manager.directory().state().nodes == Map::<Seq<char>, crate::directory::Entries>::empty(),
            forall|a: Address|
                #![trigger manager.directory().state().managers.contains_key(a)]
                manager.directory().state().managers.contains_key(a) <==> seed_peers@.contains(a),
            forall|a: Address|
                #![trigger manager.directory().state().managers[a]]
                seed_peers@.contains(a) ==> !manager.directory().state().managers[a],
    {
        Manager {
            timestamp_generator: MonotonicTimestampGenerator::new(),
            transactions: TxMap::new(),
            directory: Directory::new(seed_peers),
            outcomes: Vec::new(),
        }
    }

    /// The transactions that have ended, each with how it ended.
    pub fn finished(&self) -> (outcomes: &Vec<(TxId, Outcome)>)
        ensures
            outcomes@ == self.outcomes(),
    {
        &self.outcomes
    }

    /// The number of transactions that are under way.
    pub fn under_way(&self) -> (n: usize)
        ensures
            n == self.transactions().len(),
    {
        self.transactions.len()
    }

    /// The manager's directory.
    pub fn directory_ref(&self) -> (directory: &Directory)
        ensures
            *directory == self.directory(),
    {
        &self.directory
    }

    /// Takes the transaction `txid` one pass further: see
    /// [`Transaction::eval`]. A transaction that is done is recorded as
    /// completed and forgotten. Returns whether the manager knows the
    /// transaction.
    pub fn eval_tx<A: Host>(&mut self, txid: &TxId, ctx: &mut Context<A>) -> (known: bool)
        requires
            old(self).wf(),
        ensures
            final(self).wf(),
            final(ctx).extends(old(ctx)),
            final(ctx).retired() == old(ctx).retired(),
            sent_by(final(ctx).sent(), old(ctx).sent().len() as int, old(ctx).spec_me()),
            known == tx_has(old(self).transactions(), *txid),
            final(self).latest() == old(self).latest(),
            !known ==> final(self).transactions() == old(self).transactions() && final(self).outcomes() == old(self).outcomes() && *final(ctx) == *old(ctx) && final(self).directory() == old(self).directory(),
            known ==> final(self).evaluated(
                *old(self),
                *txid,
                old(self).transactions()[tx_index_of(old(self).transactions(), *txid)].1,
                *old(ctx),
                *final(ctx),
            ),
    {
        let at = match self.transactions.find(txid) {
            Some(at) => at,
            None => {
                proof {
                    assert forall|i: int| old(ctx).sent().len() <= i < ctx.sent().len() implies (
                    #[trigger] ctx.sent()[i]).sender == ctx.spec_me() by {}
                }
                return false;
            },
        };
        let ghost before = self.transactions@;
        let me = ctx.me();
        proof {
            assert(before == old(self).transactions());
            assert(entered(before[at as int]));
        }
        proof {
            crate::tx_map::lemma_index_unique(before, at as int);
        }
        let transaction = self.transactions.value_at_mut(at);
        let ghost start = *transaction;
        let outcome = transaction.eval(&mut self.directory, ctx);
        let ghost sent1 = ctx.sent();
        let ghost passed = *transaction;
        let ghost mid = *ctx;
        let aborted = match outcome {
            Err(_) => {
                transaction.abort(ctx);
                true
            },
            Ok(_) => false,
        };
        proof {
            if outcome is Err {
                let given = aborts(passed.state().lock_order(), *txid, me);
                assert(start.state().id() == *txid);
                assert(passed.state().id() == *txid);
                assert(mid.sent().is_prefix_of(ctx.sent()));
                assert forall|k: int| 0 <= k < given.len() implies ctx.sent()[mid.sent().len() + k]
                    == given[k] by {}
                assert(ctx.sent() =~= mid.sent() + given);
            }
            assert forall|i: int| 0 <= i < self.transactions@.len() implies entered(#[trigger] self.transactions@[i]) by {
                if i != at {
                    assert(self.transactions@[i] == before[i]);
                }
            }
            assert(self.transactions@[at as int].0 == *txid);
            assert forall|i: int| old(ctx).sent().len() <= i < ctx.sent().len() implies (
            #[trigger] ctx.sent()[i]).sender == me by {
                if i < sent1.len() {
                    assert(ctx.sent()[i] == sent1[i]);
                } else {
                    assert(ctx.sent()[sent1.len() + (i - sent1.len())].sender == me);
                }
            }
        }
        let ended = match outcome {
            Ok(true) => Some(Outcome::Completed),
            Ok(false) => None,
            Err(_) => Some(Outcome::Aborted),
        };
        match ended {
            Some(how) => {
                let ghost kept = self.transactions@;
                let ghost log = self.outcomes@;
                let _ = self.transactions.remove_at(at);
                self.outcomes.push((*txid, how));
                proof {
                    assert(self.transactions@ =~= before.remove(at as int));
                    assert(self.outcomes@ =~= log.push((*txid, how)));
                    assert forall|i: int| 0 <= i < self.transactions@.len() implies entered(#[trigger] self.transactions@[i]) by {
                        let j = if i < at { i } else { i + 1 };
                        assert(self.transactions@[i] == kept[j]);
                    }
                }
            },
            None => {},
        }
        proof {
            assert(passed.pass(
                start,
                *old(ctx),
                mid,
                old(self).directory(),
                self.directory(),
                outcome,
            ));
            assert(self.settled(*old(self), *txid, passed, outcome, mid, *ctx));
        }
        true
    }

    /// Starts a transaction for `kind` with a timestamp for a clock that
    /// reads `now`, and takes it through its first pass. Actions run at low
    /// priority, upgrades at high priority. Returns the identifier of the
    /// transaction, or `None` where no timestamp is left.
    pub fn start_at<A: Host>(&mut self, kind: TransactionKind, now: u64, ctx: &mut Context<A>) -> (txid:
        Option<TxId>)
        requires
            old(self).wf(),
        ensures
            final(self).wf(),
            final(ctx).extends(old(ctx)),
            final(ctx).retired() == old(ctx).retired(),
            sent_by(final(ctx).sent(), old(ctx).sent().len() as int, old(ctx).spec_me()),
            final(self).started(*old(self), kind, now, *old(ctx), *final(ctx), txid),
            match txid {
                Some(id) => {
                    &&& id.address == old(ctx).spec_me()
                    &&& id.priority == if kind is Action {
                        TxPriority::Low
                    } else {
                        TxPriority::High
                    }
                    &&& id.timestamp.epoch_micros == MonotonicTimestampGenerator::next_after(
                        old(self).latest(),
                        now,
                    )
                    &&& final(self).latest() == id.timestamp
                    &&& id.timestamp.epoch_micros > old(self).latest().epoch_micros
                },
                None => {
                    &&& MonotonicTimestampGenerator::next_after(old(self).latest(), now) > u64::MAX
                    &&& final(self).transactions() == old(self).transactions()
                    &&& final(self).outcomes() == old(self).outcomes()
                    &&& final(self).latest() == old(self).latest()
                    &&& final(ctx).sent() == old(ctx).sent()
                },
            },
    {
        let timestamp = match self.timestamp_generator.advance(now) {
            Some(timestamp) => timestamp,
            None => {
                proof {
                    assert(self.transactions() == old(self).transactions());
                    assert forall|i: int| old(ctx).sent().len() <= i < ctx.sent().len() implies (
                    #[trigger] ctx.sent()[i]).sender == ctx.spec_me() by {}
                }
                return None;
            },
        };
        let priority = match &kind {
            TransactionKind::Action(_) => TxPriority::Low,
            TransactionKind::Upgrade(_) => TxPriority::High,
        };
        let txid = TxId { priority, timestamp, address: ctx.me() };
        let ghost wanted = kind;
        let transaction = Transaction::new(txid, kind);
        let ghost before = self.transactions@;
        let ghost fresh = transaction;
        proof {
            assert(before == old(self).transactions());
        }
        let _ = self.transactions.insert(txid, transaction);
        proof {
            assert forall|i: int| 0 <= i < self.transactions@.len() implies entered(#[trigger] self.transactions@[i]) by {
                let entry = self.transactions@[i];
                crate::tx_map::lemma_index_unique(self.transactions@, i);
                if entry.0 != txid {
                    assert(tx_has(before, entry.0));
                    let j = tx_index_of(before, entry.0);
                    assert(crate::tx_map::tx_value(self.transactions@, entry.0)
                        == crate::tx_map::tx_value(before, entry.0));
                    assert(before[j].1 == entry.1);
                    assert(entered(before[j]));
                } else {
                    assert(entry.1 == fresh);
                }
            }
        }
        let ghost entered = *self;
        let _ = self.eval_tx(&txid, ctx);
        proof {
            let micros = MonotonicTimestampGenerator::next_after(old(self).latest(), now);
            assert(micros <= u64::MAX);
            assert(timestamp == Timestamp { epoch_micros: micros as u64 });
            assert(entered.took_on(*old(self), txid, fresh));
            assert(self.evaluated(entered, txid, fresh, *old(ctx), *ctx));
            let id = TxId {
                priority: if wanted is Action {
                    TxPriority::Low
                } else {
                    TxPriority::High
                },
                timestamp: Timestamp { epoch_micros: micros as u64 },
                address: old(ctx).spec_me(),
            };
            assert(txid == id);
            assert(self.launched(*old(self), id, wanted, *old(ctx), *ctx));
        }
        Some(txid)
    }

    /// Starts a transaction for `action`, stamped with the present moment:
    /// see [`Manager::start_at`].
    pub fn do_action<A: Host>(&mut self, action: Action, ctx: &mut Context<A>) -> (txid: Option<TxId>)
        requires
            old(self).wf(),
        ensures
            final(self).wf(),
            final(ctx).extends(old(ctx)),
            final(ctx).retired() == old(ctx).retired(),
            sent_by(final(ctx).sent(), old(ctx).sent().len() as int, old(ctx).spec_me()),
            exists|now: u64| #[trigger]
                final(self).started(
                    *old(self),
                    TransactionKind::Action(action),
                    now,
                    *old(ctx),
                    *final(ctx),
                    txid,
                ),
            match txid {
                Some(id) => {
                    &&& id.address == old(ctx).spec_me()
                    &&& id.priority == TxPriority::Low
                    &&& id.timestamp.epoch_micros > old(self).latest().epoch_micros
                    &&& final(self).latest() == id.timestamp
                },
                None => {
                    &&& old(self).latest().epoch_micros == u64::MAX
                    &&& final(self).transactions() == old(self).transactions()
                    &&& final(ctx).sent() == old(ctx).sent()
                },
            },
    {
        let now = crate::txid::wall_clock_micros();
        self.start_at(TransactionKind::Action(action), now, ctx)
    }

    /// Starts a transaction for `upgrade`, stamped with the present moment:
    /// see [`Manager::start_at`].
    pub fn do_upgrade<A: Host>(&mut self, upgrade: Upgrade, ctx: &mut Context<A>) -> (txid: Option<TxId>)
        requires
            old(self).wf(),
        ensures
            final(self).wf(),
            final(ctx).extends(old(ctx)),
            final(ctx).retired() == old(ctx).retired(),
            sent_by(final(ctx).sent(), old(ctx).sent().len() as int, old(ctx).spec_me()),
            exists|now: u64| #[trigger]
                final(self).started(
                    *old(self),
                    TransactionKind::Upgrade(upgrade),
                    now,
                    *old(ctx),
                    *final(ctx),
                    txid,
                ),
            match txid {
                Some(id) => {
                    &&& id.address == old(ctx).spec_me()
                    &&& id.priority == TxPriority::High
                    &&& id.timestamp.epoch_micros > old(self).latest().epoch_micros
                    &&& final(self).latest() == id.timestamp
                },
                None => {
                    &&& old(self).latest().epoch_micros == u64::MAX
                    &&& final(self).transactions() == old(self).transactions()
                    &&& final(ctx).sent() == old(ctx).sent()
                },
            },
    {
        let now = crate::txid::wall_clock_micros();
        self.start_at(TransactionKind::Upgrade(upgrade), now, ctx)
    }

    /// Gives the transaction `txid` up: its locks are aborted, and it is
    /// recorded as aborted and forgotten. Returns whether the manager knew
    /// the transaction.
    pub fn abort_tx<A>(&mut self, txid: &TxId, ctx: &mut Context<A>) -> (known: bool)
        requires
            old(self).wf(),
        ensures
            final(self).wf(),
            final(ctx).extends(old(ctx)),
            final(ctx).spawned() == old(ctx).spawned(),
            final(ctx).retired() == old(ctx).retired(),
            sent_by(final(ctx).sent(), old(ctx).sent().len() as int, old(ctx).spec_me()),
            final(self).latest() == old(self).latest(),
            final(self).directory() == old(self).directory(),
            known == tx_has(old(self).transactions(), *txid),
            if known {
                let at = tx_index_of(old(self).transactions(), *txid);
                let held = old(self).transactions()[at].1.state().lock_order();
                &&& final(self).transactions() == old(self).transactions().remove(at)
                &&& final(self).outcomes() == old(self).outcomes().push((*txid, Outcome::Aborted))
                &&& final(ctx).sent().len() == old(ctx).sent().len() + held.len()
                &&& forall|i: int|
                    0 <= i < held.len() ==> #[trigger] final(ctx).sent()[old(ctx).sent().len() + i]
                        == (Envelope {
                        sender: old(ctx).spec_me(),
                        target: held[i],
                        message: Message::Abort { txid: *txid },
                    })
            } else {
                &&& final(self).transactions() == old(self).transactions()
                &&& final(self).outcomes() == old(self).outcomes()
                &&& final(ctx).sent() == old(ctx).sent()
            },
    {
        let at = match self.transactions.find(txid) {
            Some(at) => at,
            None => {
                proof {
                    assert forall|i: int| old(ctx).sent().len() <= i < ctx.sent().len() implies (
                    #[trigger] ctx.sent()[i]).sender == ctx.spec_me() by {}
                }
                return false;
            },
        };
        let ghost before = self.transactions@;
        let entry = self.transactions.remove_at(at);
        let mut transaction = entry.1;
        transaction.abort(ctx);
        self.outcomes.push((*txid, Outcome::Aborted));
        proof {
            assert forall|i: int| 0 <= i < self.transactions@.len() implies entered(#[trigger] self.transactions@[i]) by {
                let j = if i < at { i } else { i + 1 };
                assert(self.transactions@[i] == before[j]);
            }
            assert forall|i: int| old(ctx).sent().len() <= i < ctx.sent().len() implies (
            #[trigger] ctx.sent()[i]).sender == old(ctx).spec_me() by {
                let k = i - old(ctx).sent().len();
                assert(ctx.sent()[old(ctx).sent().len() + k].sender == old(ctx).spec_me());
            }
        }
        true
    }

    /// Gives up the transaction `txid`, which has failed: its locks are
    /// released with the empty stamp, and it is recorded as aborted and
    /// forgotten. Returns whether the manager knew the transaction.
    pub fn fail_tx<A>(&mut self, txid: &TxId, ctx: &mut Context<A>) -> (known: bool)
        requires
            old(self).wf(),
        ensures
            final(self).wf(),
            final(ctx).extends(old(ctx)),
            final(ctx).spawned() == old(ctx).spawned(),
            final(ctx).retired() == old(ctx).retired(),
            sent_by(final(ctx).sent(), old(ctx).sent().len() as int, old(ctx).spec_me()),
            final(self).latest() == old(self).latest(),
            final(self).directory() == old(self).directory(),
            known == tx_has(old(self).transactions(), *txid),
            if known {
                let at = tx_index_of(old(self).transactions(), *txid);
                let held = old(self).transactions()[at].1.state().lock_order();
                &&& final(self).transactions() == old(self).transactions().remove(at)
                &&& final(self).outcomes() == old(self).outcomes().push((*txid, Outcome::Aborted))
                &&& final(ctx).sent().len() == old(ctx).sent().len() + held.len()
                &&& released_with(
                    final(ctx).sent(),
                    old(ctx).sent().len() as int,
                    old(ctx).spec_me(),
                    held,
                    *txid,
                    Map::<Address, nat>::empty(),
                )
            } else {
                &&& final(self).transactions() == old(self).transactions()
                &&& final(self).outcomes() == old(self).outcomes()
                &&& final(ctx).sent() == old(ctx).sent()
            },
    {
        let at = match self.transactions.find(txid) {
            Some(at) => at,
            None => {
                proof {
                    assert forall|i: int| old(ctx).sent().len() <= i < ctx.sent().len() implies (
                    #[trigger] ctx.sent()[i]).sender == ctx.spec_me() by {}
                }
                return false;
            },
        };
        let ghost before = self.transactions@;
        proof {
            assert(before == old(self).transactions());
            assert(entered(before[at as int]));
        }
        let entry = self.transactions.remove_at(at);
        let mut transaction = entry.1;
        transaction.fail(ctx);
        self.outcomes.push((*txid, Outcome::Aborted));
        proof {
            assert forall|i: int| 0 <= i < self.transactions@.len() implies entered(
                #[trigger] self.transactions@[i],
            ) by {
                let j = if i < at { i } else { i + 1 };
                assert(self.transactions@[i] == before[j]);
                assert(entered(before[j]));
            }
            assert forall|i: int| old(ctx).sent().len() <= i < ctx.sent().len() implies (
            #[trigger] ctx.sent()[i]).sender == old(ctx).spec_me() by {
                let k = i - old(ctx).sent().len();
                assert(ctx.sent()[old(ctx).sent().len() + k].sender == old(ctx).spec_me());
            }
        }
        true
    }

    /// Why the manager refuses `message`, if it does: an action or upgrade
    /// once the timestamps are used up, the answer to a read for a
    /// transaction that the manager does not know, and a message of a kind
    /// that a manager does not handle.
    pub open spec fn refusal(&self, message: Message) -> Option<Violation> {
        match message {
            Message::Do { .. } => if self.latest().epoch_micros == u64::MAX {
                Some(Violation::TimestampsExhausted)
            } else {
                None
            },
            Message::Upgrade { .. } => if self.latest().epoch_micros == u64::MAX {
                Some(Violation::TimestampsExhausted)
            } else {
                None
            },
            Message::ReadResult { txid, .. } => if tx_has(self.transactions(), txid) {
                None
            } else {
                Some(Violation::UnknownTransaction)
            },
            Message::LockGranted { .. } => None,
            Message::Preempt { .. } => None,
            Message::Directory { .. } => None,
            Message::Unreachable { .. } => None,
            _ => Some(Violation::Unexpected),
        }
    }

    /// Whether the manager refuses `message`, and why: see
    /// [`Manager::refusal`]. Nothing is changed by the test.
    pub fn check(&self, message: &Message) -> (refused: Option<Violation>)
        ensures
            refused == self.refusal(*message),
    {
        match message {
            Message::Do { .. } | Message::Upgrade { .. } => {
                if self.timestamp_generator.is_exhausted() {
                    Some(Violation::TimestampsExhausted)
                } else {
                    None
                }
            },
            Message::ReadResult { txid, .. } => {
                if self.transactions.contains_key(txid) {
                    None
                } else {
                    Some(Violation::UnknownTransaction)
                }
            },
            Message::LockGranted { .. } => None,
            Message::Preempt { .. } => None,
            Message::Directory { .. } => None,
            Message::Unreachable { .. } => None,
            _ => Some(Violation::Unexpected),
        }
    }

    /// Handles `message`, which `sender` sent and which the manager does not
    /// refuse.
    ///
    /// A client's action or upgrade starts a transaction. The grant of a lock
    /// and the answer to a read are passed on to the transaction that they
    /// are for, which is then taken one pass further. A transaction that
    /// finds a node at another version than it expected has failed: the lock
    /// and every lock that it holds are released with the empty stamp. A lock
    /// that is granted to a transaction that the manager no longer knows is
    /// given back at once. A transaction that is asked to give up a lock
    /// gives up altogether. The state of another directory is merged.
    pub fn handle<A: Host>(&mut self, sender: Address, message: Message, ctx: &mut Context<A>)
        requires
            old(self).wf(),
            old(self).refusal(message) is None,
        ensures
            final(self).wf(),
            final(ctx).extends(old(ctx)),
            final(ctx).retired() == old(ctx).retired(),
            sent_by(final(ctx).sent(), old(ctx).sent().len() as int, old(ctx).spec_me()),
            match message {
                Message::Do { action } => {
                    exists|now: u64, txid: Option<TxId>| #[trigger]
                        final(self).started(
                            *old(self),
                            TransactionKind::Action(action),
                            now,
                            *old(ctx),
                            *final(ctx),
                            txid,
                        )
                },
                Message::Upgrade { upgrade } => {
                    exists|now: u64, txid: Option<TxId>| #[trigger]
                        final(self).started(
                            *old(self),
                            TransactionKind::Upgrade(upgrade),
                            now,
                            *old(ctx),
                            *final(ctx),
                            txid,
                        )
                },
                Message::LockGranted { txid, address, version, node_kind } => {
                    let at = tx_index_of(old(self).transactions(), txid);
                    let start = old(self).transactions()[at].1;
                    let held = start.state().lock_order();
                    &&& !tx_has(old(self).transactions(), txid) ==> {
                        &&& final(self).unchanged(*old(self))
                        &&& final(ctx).spawned() == old(ctx).spawned()
                        &&& final(ctx).sent() == old(ctx).sent().push(
                            Envelope {
                                sender: old(ctx).spec_me(),
                                target: address,
                                message: Message::Abort { txid },
                            },
                        )
                    }
                    &&& tx_has(old(self).transactions(), txid) ==> match start.state().refuses(
                        address,
                        version,
                    ) {
                        None => exists|noted: Transaction|
                            {
                                &&& #[trigger] noted.took_lock(start, address, version, node_kind)
                                &&& final(self).evaluated(
                                    *old(self),
                                    txid,
                                    noted,
                                    *old(ctx),
                                    *final(ctx),
                                )
                            },
                        Some(TransactionError::VersionMismatch { .. }) => {
                            &&& final(self).gave_up(*old(self), txid)
                            &&& final(ctx).spawned() == old(ctx).spawned()
                            &&& final(ctx).sent().len() == old(ctx).sent().len() + 1 + held.len()
                            &&& released_with(
                                final(ctx).sent(),
                                old(ctx).sent().len() as int,
                                old(ctx).spec_me(),
                                seq![address] + held,
                                txid,
                                Map::<Address, nat>::empty(),
                            )
                        },
                        Some(_) => {
                            &&& final(self).gave_up(*old(self), txid)
                            &&& final(ctx).spawned() == old(ctx).spawned()
                            &&& final(ctx).sent() == old(ctx).sent().push(
                                Envelope {
                                    sender: old(ctx).spec_me(),
                                    target: address,
                                    message: Message::Abort { txid },
                                },
                            ) + aborts(held, txid, old(ctx).spec_me())
                        },
                    }
                },
                Message::ReadResult { txid, address, value } => {
                    let at = tx_index_of(old(self).transactions(), txid);
                    let start = old(self).transactions()[at].1;
                    exists|noted: Transaction|
                        {
                            &&& #[trigger] noted.took_value(start, address, value)
                            &&& final(self).evaluated(
                                *old(self),
                                txid,
                                noted,
                                *old(ctx),
                                *final(ctx),
                            )
                        }
                },
                Message::Preempt { txid } => {
                    let at = tx_index_of(old(self).transactions(), txid);
                    let held = old(self).transactions()[at].1.state().lock_order();
                    &&& final(ctx).spawned() == old(ctx).spawned()
                    &&& if tx_has(old(self).transactions(), txid) {
                        &&& final(self).gave_up(*old(self), txid)
                        &&& final(ctx).sent() == old(ctx).sent() + aborts(
                            held,
                            txid,
                            old(ctx).spec_me(),
                        )
                    } else {
                        &&& final(self).unchanged(*old(self))
                        &&& final(ctx).sent() == old(ctx).sent()
                    }
                },
                Message::Directory { state } => {
                    &&& final(self).directory().merged(
                        &old(self).directory(),
                        state@,
                        old(ctx).spec_me(),
                        final(ctx).sent().skip(old(ctx).sent().len() as int),
                    )
                    &&& final(ctx).spawned() == old(ctx).spawned()
                    &&& final(self).transactions() == old(self).transactions()
                    &&& final(self).outcomes() == old(self).outcomes()
                    &&& final(self).latest() == old(self).latest()
                },
                Message::Unreachable { message: undelivered } => {
                    let waiting = asks_for_lock(*undelivered) is Some && tx_has(
                        old(self).transactions(),
                        asks_for_lock(*undelivered)->Some_0,
                    );
                    &&& *final(ctx) == *old(ctx)
                    &&& final(self).outcomes() == old(self).outcomes()
                    &&& final(self).latest() == old(self).latest()
                    &&& final(self).directory() == old(self).directory()
                    &&& !waiting ==> final(self).transactions() == old(self).transactions()
                    &&& waiting ==> {
                        let txid = asks_for_lock(*undelivered)->Some_0;
                        let at = tx_index_of(old(self).transactions(), txid);
                        exists|left: Transaction|
                            {
                                &&& #[trigger] left.gave_up_on(old(self).transactions()[at].1, sender)
                                &&& final(self).transactions() == old(self).transactions().update(
                                    at,
                                    (txid, left),
                                )
                            }
                    }
                },
                _ => {
                    &&& final(self).unchanged(*old(self))
                    &&& *final(ctx) == *old(ctx)
                },
            },
    {
        let me = ctx.me();
        let ghost sent0 = ctx.sent();
        proof {
            assert forall|i: int| sent0.len() <= i < sent0.len() implies (#[trigger] sent0[i]).sender
                == me by {}
        }
        self.transactions.sorted();
        match message {
            Message::Do { action } => {
                let ghost kind = TransactionKind::Action(action);
                let txid = self.do_action(action, ctx);
                proof {
                    let now = choose|now: u64| #[trigger]
                        self.started(*old(self), kind, now, *old(ctx), *ctx, txid);
                    assert(self.started(*old(self), kind, now, *old(ctx), *ctx, txid));
                }
            },
            Message::Upgrade { upgrade } => {
                let ghost kind = TransactionKind::Upgrade(upgrade);
                let txid = self.do_upgrade(upgrade, ctx);
                proof {
                    let now = choose|now: u64| #[trigger]
                        self.started(*old(self), kind, now, *old(ctx), *ctx, txid);
                    assert(self.started(*old(self), kind, now, *old(ctx), *ctx, txid));
                }
            },
            Message::LockGranted { txid, address, node_kind, version } => {
                match self.transactions.find(&txid) {
                    None => {
                        ctx.send(address, Message::Abort { txid });
                    },
                    Some(at) => {
                        let ghost before = self.transactions@;
                        proof {
                            crate::tx_map::lemma_index_unique(before, at as int);
                            assert(before == old(self).transactions());
                            assert(entered(before[at as int]));
                        }
                        let ghost kind_of_node = node_kind;
                        let transaction = self.transactions.value_at_mut(at);
                        let ghost start = *transaction;
                        let granted = transaction.lock_granted(address, version, node_kind);
                        let ghost noted = *transaction;
                        proof {
                            assert forall|i: int| 0 <= i < self.transactions@.len() implies entered(
                                #[trigger] self.transactions@[i],
                            ) by {
                                if i != at {
                                    assert(self.transactions@[i] == before[i]);
                                    assert(entered(before[i]));
                                }
                            }
                        }
                        let ghost held = start.state().lock_order();
                        match granted {
                            Ok(_) => {
                                let ghost taken = *self;
                                let _ = self.eval_tx(&txid, ctx);
                                proof {
                                    crate::tx_map::lemma_index_unique(
                                        taken.transactions(),
                                        at as int,
                                    );
                                    lemma_evaluated_after_note(
                                        *self,
                                        taken,
                                        *old(self),
                                        txid,
                                        noted,
                                        *old(ctx),
                                        *ctx,
                                    );
                                    assert(noted.took_lock(start, address, version, kind_of_node));
                                }
                            },
                            Err(TransactionError::VersionMismatch { .. }) => {
                                // The node is not what the transaction took
                                // it for: the lock is given back with the
                                // others, all released with the empty stamp.
                                ctx.send(address, Message::Release { txid, basis: BasisStamp::empty() });
                                let ghost sent1 = ctx.sent();
                                let ghost mid = self.transactions@;
                                let _ = self.fail_tx(&txid, ctx);
                                proof {
                                    assert(mid =~= before);
                                    crate::tx_map::lemma_index_unique(mid, at as int);
                                    assert forall|i: int|
                                        sent0.len() <= i < ctx.sent().len() implies (
                                    #[trigger] ctx.sent()[i]).sender == me by {
                                        if i < sent1.len() {
                                            assert(ctx.sent()[i] == sent1[i]);
                                        }
                                    }
                                    let all = seq![address] + held;
                                    assert forall|i: int| 0 <= i < all.len() implies crate::transaction::is_release(
                                        #[trigger] ctx.sent()[sent0.len() + i],
                                        me,
                                        all[i],
                                        txid,
                                        Map::<Address, nat>::empty(),
                                    ) by {
                                        if i == 0 {
                                            assert(ctx.sent()[sent0.len() as int] == sent1[sent0.len() as int]);
                                        } else {
                                            assert(ctx.sent()[sent1.len() + (i - 1)] == ctx.sent()[sent0.len() + i]);
                                            assert(all[i] == held[i - 1]);
                                        }
                                    }
                                }
                            },
                            Err(_) => {
                                // The lock that was just granted is no lock of
                                // the transaction's: it is given back, and
                                // the transaction is given up.
                                ctx.send(address, Message::Abort { txid });
                                let ghost sent1 = ctx.sent();
                                let ghost mid = self.transactions@;
                                let _ = self.abort_tx(&txid, ctx);
                                proof {
                                    assert(mid =~= before);
                                    crate::tx_map::lemma_index_unique(mid, at as int);
                                    assert forall|i: int|
                                        sent0.len() <= i < ctx.sent().len() implies (
                                    #[trigger] ctx.sent()[i]).sender == me by {
                                        if i < sent1.len() {
                                            assert(ctx.sent()[i] == sent1[i]);
                                        }
                                    }
                                    let given = aborts(held, txid, me);
                                    assert forall|k: int| 0 <= k < given.len() implies ctx.sent()[sent1.len()
                                        + k] == given[k] by {}
                                    assert(ctx.sent() =~= sent1 + given);
                                }
                            },
                        }
                    },
                }
            },
            Message::ReadResult { txid, address, value } => {
                match self.transactions.find(&txid) {
                    None => {},
                    Some(at) => {
                        let ghost before = self.transactions@;
                        proof {
                            crate::tx_map::lemma_index_unique(before, at as int);
                            assert(before == old(self).transactions());
                            assert(entered(before[at as int]));
                        }
                        let ghost answer = value;
                        let transaction = self.transactions.value_at_mut(at);
                        let ghost start = *transaction;
                        let _ = transaction.read_result(address, value);
                        let ghost noted = *transaction;
                        proof {
                            assert forall|i: int| 0 <= i < self.transactions@.len() implies entered(
                                #[trigger] self.transactions@[i],
                            ) by {
                                if i != at {
                                    assert(self.transactions@[i] == before[i]);
                                    assert(entered(before[i]));
                                }
                            }
                        }
                        let ghost taken = *self;
                        let _ = self.eval_tx(&txid, ctx);
                        proof {
                            crate::tx_map::lemma_index_unique(taken.transactions(), at as int);
                            lemma_evaluated_after_note(
                                *self,
                                taken,
                                *old(self),
                                txid,
                                noted,
                                *old(ctx),
                                *ctx,
                            );
                            assert(noted.took_value(start, address, answer));
                        }
                    },
                }
            },
            Message::Preempt { txid } => {
                let known = self.abort_tx(&txid, ctx);
                proof {
                    if known {
                        let at = tx_index_of(old(self).transactions(), txid);
                        let held = old(self).transactions()[at].1.state().lock_order();
                        let given = aborts(held, txid, me);
                        assert forall|k: int| 0 <= k < given.len() implies ctx.sent()[sent0.len() + k]
                            == given[k] by {}
                        assert(ctx.sent() =~= sent0 + given);
                    }
                }
            },
            Message::Directory { state } => {
                self.directory.merge_and_update(state, ctx);
                proof {
                    let sent = ctx.sent().skip(sent0.len() as int);
                    assert forall|i: int| sent0.len() <= i < ctx.sent().len() implies (
                    #[trigger] ctx.sent()[i]).sender == me by {
                        assert(sent[i - sent0.len()] == ctx.sent()[i]);
                        if self.directory.state() != old(self).directory.state() {
                            assert(crate::directory::is_state_update(
                                sent[i - sent0.len()],
                                me,
                                crate::directory::live_peers(
                                    self.directory.manager_order(),
                                    self.directory.state().managers,
                                    me,
                                )[i - sent0.len()],
                                self.directory.state(),
                            ));
                        }
                    }
                }
            },
            Message::Unreachable { message: undelivered } => {
                // A node that has retired before it could grant a lock is no
                // longer waited for.
                match *undelivered {
                    Message::Lock { txid, .. } => {
                        match self.transactions.find(&txid) {
                            Some(at) => {
                                let ghost before = self.transactions@;
                                proof {
                                    crate::tx_map::lemma_index_unique(before, at as int);
                                    assert(before == old(self).transactions());
                                    assert(entered(before[at as int]));
                                }
                                let transaction = self.transactions.value_at_mut(at);
                                let ghost start = *transaction;
                                let _ = transaction.unreachable(sender);
                                let ghost left = *transaction;
                                proof {
                                    assert forall|i: int|
                                        0 <= i < self.transactions@.len() implies entered(
                                        #[trigger] self.transactions@[i],
                                    ) by {
                                        if i != at {
                                            assert(self.transactions@[i] == before[i]);
                                            assert(entered(before[i]));
                                        }
                                    }
                                    assert(left.gave_up_on(start, sender));
                                    assert(self.transactions() == old(self).transactions().update(
                                        at as int,
                                        (txid, left),
                                    ));
                                }
                            },
                            None => {},
                        }
                    },
                    _ => {},
                }
            },
            _ => {},
        }
    }
}

} // verus!
