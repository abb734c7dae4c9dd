//! Transaction identifiers and the clock that stamps them.

use crate::actor::Address;
use vstd::prelude::*;

verus! {

/// The urgency of a transaction. Transactions that change the schema run at
/// high priority, so that they pre-empt those that only touch data.
#[derive(Debug, Clone, Copy, PartialEq, Eq, Structural, PartialOrd, Ord, Hash)]
pub enum TxPriority {
    High,
    Low,
}

impl TxPriority {
    /// The place of the priority in the order of priorities: high comes first.
    pub open spec fn rank(self) -> int {
        match self {
            TxPriority::High => 0,
            TxPriority::Low => 1,
        }
    }
}

/// Microseconds since the Unix epoch, made strictly increasing by the
/// generator that hands them out.
#[derive(Debug, Clone, Copy, PartialEq, Eq, Structural, PartialOrd, Ord, Hash)]
pub struct Timestamp {
    pub epoch_micros: u64,
}

/// Identifies a transaction. Identifiers are ordered by priority, then by
/// timestamp, then by the address of the originator; the smaller identifier is
/// the older transaction, which wins where two contend for a lock.
#[derive(Debug, Clone, Copy, PartialEq, Eq, Structural, PartialOrd, Ord, Hash)]
pub struct TxId {
    pub priority: TxPriority,
    pub timestamp: Timestamp,
    pub address: Address,
}

impl TxId {
    /// Whether `self` is strictly older than `other`.
    pub open spec fn spec_lt(self, other: TxId) -> bool {
        ||| self.priority.rank() < other.priority.rank()
        ||| self.priority == other.priority && self.timestamp.epoch_micros
            < other.timestamp.epoch_micros
        ||| self.priority == other.priority && self.timestamp == other.timestamp
            && self.address.index < other.address.index
    }

    /// The order of identifiers is total: of two different identifiers exactly
    /// one is the older, and being older is transitive.
    pub proof fn lemma_total_order(a: TxId, b: TxId, c: TxId)
        ensures
            !a.spec_lt(a),
            a.spec_lt(b) || a == b || b.spec_lt(a),
            !(a.spec_lt(b) && b.spec_lt(a)),
            a.spec_lt(b) && b.spec_lt(c) ==> a.spec_lt(c),
    {
    }

    /// Whether `self` is strictly older than `other`.
    pub fn precedes(&self, other: &TxId) -> (b: bool)
        ensures
            b == self.spec_lt(*other),
    {
        let mine = match self.priority {
            TxPriority::High => 0u8,
            TxPriority::Low => 1u8,
        };
        let theirs = match other.priority {
            TxPriority::High => 0u8,
            TxPriority::Low => 1u8,
        };
        if mine != theirs {
            mine < theirs
        } else if self.timestamp.epoch_micros != other.timestamp.epoch_micros {
            self.timestamp.epoch_micros < other.timestamp.epoch_micros
        } else {
            self.address.index < other.address.index
        }
    }
}

/// The two ways of holding a lock on a reactive node.
#[derive(Debug, Clone, Copy, PartialEq, Eq, Structural)]
pub enum LockKind {
    Shared,
    Exclusive,
}

/// Hands out timestamps that strictly increase, whatever the wall clock does.
pub struct MonotonicTimestampGenerator {
    latest: Timestamp,
}

/// Reads the wall clock with `SystemTime::now`. Nothing is claimed of the
/// instant that comes back.
#[verifier::external_body]
fn wall_clock_now() -> (now: std::time::SystemTime) {
    std::time::SystemTime::now()
}

/// The time from the Unix epoch to `at`, by `SystemTime::duration_since`;
/// `None` where `at` lies before the epoch. Nothing is claimed of the
/// duration.
#[verifier::external_body]
fn since_epoch(at: std::time::SystemTime) -> (elapsed: Option<core::time::Duration>) {
    match at.duration_since(std::time::UNIX_EPOCH) {
        Ok(elapsed) => Some(elapsed),
        Err(_) => None,
    }
}

/// The whole microseconds of `elapsed`, by `Duration::as_micros`. Nothing is
/// claimed of the number.
#[verifier::external_body]
fn whole_micros(elapsed: core::time::Duration) -> (micros: u128) {
    elapsed.as_micros()
}

/// An instant of the system clock.
#[verifier::external_type_specification]
#[verifier::external_body]
pub struct ExSystemTime(std::time::SystemTime);

/// What the wall clock reads now, in microseconds since the Unix epoch, cut
/// to 64 bits. A clock that reads a time before the epoch counts as reading
/// zero.
pub fn wall_clock_micros() -> u64 {
    let elapsed = match since_epoch(wall_clock_now()) {
        Some(elapsed) => {
            let micros: u128 = whole_micros(elapsed);
            Some(micros)
        },
        None => None,
    };
    clock_reading(elapsed)
}

impl MonotonicTimestampGenerator {
    /// The last timestamp handed out; zero before the first.
    pub closed spec fn latest(&self) -> Timestamp {
        self.latest
    }

    /// The timestamp that follows `latest` when the clock reads `now`: the
    /// clock's reading where it lies ahead, else one microsecond more than the
    /// last.
    pub open spec fn next_after(latest: Timestamp, now: u64) -> int {
        if now > latest.epoch_micros {
            now as int
        } else {
            latest.epoch_micros + 1
        }
    }

    pub fn new() -> (generator: MonotonicTimestampGenerator)
        ensures
            generator.latest().epoch_micros == 0,
    {
        MonotonicTimestampGenerator { latest: Timestamp { epoch_micros: 0 } }
    }

    /// Whether the timestamps are used up: the last one handed out is the
    /// greatest there is.
    pub fn is_exhausted(&self) -> (exhausted: bool)
        ensures
            exhausted == (self.latest().epoch_micros == u64::MAX),
    {
        self.latest.epoch_micros == u64::MAX
    }

    /// Hands out the timestamp for a clock that reads `now`. Returns `None`,
    /// and changes nothing, where the next timestamp no longer fits 64 bits.
    pub fn advance(&mut self, now: u64) -> (stamp: Option<Timestamp>)
        ensures
            match stamp {
                Some(t) => {
                    &&& t.epoch_micros == Self::next_after(old(self).latest(), now)
                    &&& final(self).latest() == t
                },
                None => {
                    &&& Self::next_after(old(self).latest(), now) > u64::MAX
                    &&& final(self).latest() == old(self).latest()
                },
            },
    {
        if now > self.latest.epoch_micros {
            self.latest = Timestamp { epoch_micros: now };
            Some(self.latest)
        } else if self.latest.epoch_micros < u64::MAX {
            self.latest = Timestamp { epoch_micros: self.latest.epoch_micros + 1 };
            Some(self.latest)
        } else {
            None
        }
    }

    /// Hands out a timestamp for the present moment. Whatever the wall clock
    /// reads, the timestamp is later than every one handed out before. A clock
    /// that reads a time before the epoch counts as reading zero. `None` comes
    /// back only once the timestamps are used up.
    pub fn generate_timestamp(&mut self) -> (stamp: Option<Timestamp>)
        ensures
            match stamp {
                Some(t) => {
                    &&& t.epoch_micros > old(self).latest().epoch_micros
                    &&& final(self).latest() == t
                },
                None => {
                    &&& old(self).latest().epoch_micros == u64::MAX
                    &&& final(self).latest() == old(self).latest()
                },
            },
    {
        let now = wall_clock_micros();
        self.advance(now)
    }
}

/// What a clock reads that stands `elapsed` microseconds after the Unix
/// epoch, or before the epoch where `elapsed` is `None`: the microseconds,
/// of which the lowest 64 bits are kept, and zero before the epoch.
pub open spec fn reading_of(elapsed: Option<u128>) -> int {
    match elapsed {
        Some(micros) => (micros as int) % 0x1_0000_0000_0000_0000,
        None => 0,
    }
}

/// What a clock reads, in microseconds since the Unix epoch: see
/// [`reading_of`].
pub fn clock_reading(elapsed: Option<u128>) -> (micros: u64)
    ensures
        micros == reading_of(elapsed),
{
    match elapsed {
        Some(micros) => {
            let kept: u128 = micros % 0x1_0000_0000_0000_0000u128;
            kept as u64
        },
        None => 0,
    }
}

} // verus!
