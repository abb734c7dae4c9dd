use reactive_fabric::actor::Address;
use reactive_fabric::txid::{clock_reading, MonotonicTimestampGenerator, Timestamp, TxId, TxPriority};

fn txid(priority: TxPriority, micros: u64, index: usize) -> TxId {
    TxId { priority, timestamp: Timestamp { epoch_micros: micros }, address: Address { index } }
}

#[test]
fn high_priority_is_older_than_low() {
    let schema = txid(TxPriority::High, 900, 7);
    let data = txid(TxPriority::Low, 100, 1);
    assert!(schema.precedes(&data));
    assert!(!data.precedes(&schema));
}

#[test]
fn timestamps_order_transactions_of_one_priority() {
    let first = txid(TxPriority::Low, 10, 9);
    let second = txid(TxPriority::Low, 11, 0);
    assert!(first.precedes(&second));
    assert!(!second.precedes(&first));
}

#[test]
fn addresses_break_the_tie() {
    let a = txid(TxPriority::Low, 10, 1);
    let b = txid(TxPriority::Low, 10, 2);
    assert!(a.precedes(&b));
    assert!(!b.precedes(&a));
    assert!(!a.precedes(&a));
}

#[test]
fn precedes_agrees_with_the_derived_order() {
    let ids = [
        txid(TxPriority::High, 5, 3),
        txid(TxPriority::High, 5, 4),
        txid(TxPriority::High, 6, 0),
        txid(TxPriority::Low, 1, 0),
        txid(TxPriority::Low, 1, 9),
    ];
    for a in ids.iter() {
        for b in ids.iter() {
            assert_eq!(a.precedes(b), a < b);
        }
    }
}

#[test]
fn advance_follows_a_clock_that_moves() {
    let mut generator = MonotonicTimestampGenerator::new();
    assert_eq!(generator.advance(100), Some(Timestamp { epoch_micros: 100 }));
    assert_eq!(generator.advance(250), Some(Timestamp { epoch_micros: 250 }));
}

#[test]
fn advance_steps_past_a_clock_that_stands_still_or_goes_back() {
    let mut generator = MonotonicTimestampGenerator::new();
    assert_eq!(generator.advance(100), Some(Timestamp { epoch_micros: 100 }));
    assert_eq!(generator.advance(100), Some(Timestamp { epoch_micros: 101 }));
    assert_eq!(generator.advance(7), Some(Timestamp { epoch_micros: 102 }));
    assert_eq!(generator.advance(0), Some(Timestamp { epoch_micros: 103 }));
}

#[test]
fn advance_stops_when_the_timestamps_are_used_up() {
    let mut generator = MonotonicTimestampGenerator::new();
    assert_eq!(generator.advance(u64::MAX), Some(Timestamp { epoch_micros: u64::MAX }));
    assert_eq!(generator.advance(5), None);
    assert_eq!(generator.advance(u64::MAX), None);
}

#[test]
fn generated_timestamps_strictly_increase() {
    let mut generator = MonotonicTimestampGenerator::new();
    let mut last = 0;
    for _ in 0..1000 {
        let stamp = generator.generate_timestamp().unwrap();
        assert!(stamp.epoch_micros > last);
        last = stamp.epoch_micros;
    }
}

#[test]
fn generated_timestamps_follow_the_wall_clock() {
    // The first timestamp of a fresh generator is the clock's reading, which
    // lies well after the year 2001.
    let mut generator = MonotonicTimestampGenerator::new();
    let stamp = generator.generate_timestamp().unwrap();
    assert!(stamp.epoch_micros > 1_000_000_000_000_000);
}

#[test]
fn a_clock_reading_keeps_the_lowest_64_bits() {
    assert_eq!(clock_reading(None), 0);
    assert_eq!(clock_reading(Some(0)), 0);
    assert_eq!(clock_reading(Some(1_700_000_000_000_000)), 1_700_000_000_000_000);
    assert_eq!(clock_reading(Some(u64::MAX as u128)), u64::MAX);
    assert_eq!(clock_reading(Some(u64::MAX as u128 + 1)), 0);
    assert_eq!(clock_reading(Some((1u128 << 64) + 7)), 7);
    assert_eq!(clock_reading(Some(u128::MAX)), u64::MAX);
}
