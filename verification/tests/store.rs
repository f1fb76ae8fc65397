//! The bounded buffer and the store of records.

use simple_metrics::store::{PushError, RingBuffer, Snapshot, Store};

fn buffer(capacity: usize) -> RingBuffer<u32> {
    RingBuffer::new(capacity)
}

fn contents(buffer: &RingBuffer<u32>) -> Vec<u32> {
    buffer.iter().copied().collect()
}

#[test]
fn starts_empty() {
    let buffer = buffer(3);
    assert!(buffer.is_empty());
    assert_eq!(buffer.len(), 0);
    assert_eq!(buffer.capacity(), 3);
}

#[test]
fn keeps_everything_until_full() {
    let mut buffer = buffer(3);
    assert_eq!(buffer.push(1), None);
    assert_eq!(buffer.push(2), None);
    assert_eq!(buffer.push(3), None);
    assert_eq!(contents(&buffer), [1, 2, 3]);
    assert_eq!(buffer.len(), 3);
}

#[test]
fn discards_the_oldest_when_full() {
    let mut buffer = buffer(3);
    for n in 1..=3 {
        buffer.push(n);
    }
    assert_eq!(buffer.push(4), Some(1));
    assert_eq!(buffer.push(5), Some(2));
    assert_eq!(contents(&buffer), [3, 4, 5]);
}

#[test]
fn never_grows_past_its_capacity() {
    let mut buffer = buffer(5);
    for n in 0..1_000 {
        buffer.push(n);
        assert!(buffer.len() <= 5);
    }
    assert_eq!(contents(&buffer), [995, 996, 997, 998, 999]);
}

#[test]
fn a_capacity_of_one_holds_only_the_latest() {
    let mut buffer = buffer(1);
    assert_eq!(buffer.push(1), None);
    assert_eq!(buffer.push(2), Some(1));
    assert_eq!(contents(&buffer), [2]);
}

#[test]
fn can_be_iterated_by_reference() {
    let mut buffer = buffer(3);
    buffer.push(7);
    buffer.push(8);
    let mut seen = Vec::new();
    for item in &buffer {
        seen.push(*item);
    }
    assert_eq!(seen, [7, 8]);
}

#[test]
fn the_buffer_of_the_example_drops_its_first_letter() {
    let mut buffer = RingBuffer::new(2);
    assert_eq!(buffer.push("a"), None);
    assert_eq!(buffer.push("b"), None);
    assert_eq!(buffer.push("c"), Some("a"));
    assert_eq!(buffer.iter().copied().collect::<Vec<_>>(), ["b", "c"]);
}

fn bits(values: &[f64]) -> Vec<u64> {
    values.iter().map(|v| v.to_bits()).collect()
}

#[test]
fn a_store_keeps_the_newest_records_in_time_order() {
    let mut store = Store::new(2, 2).unwrap();
    assert!(store.is_empty());
    assert_eq!(store.latest(), None);
    assert_eq!(store.push(10, &bits(&[1.0, 2.0])), Ok(()));
    assert_eq!(store.push(20, &bits(&[3.0, f64::NAN])), Ok(()));
    assert_eq!(store.push(30, &bits(&[5.0, 6.0])), Ok(()));
    assert_eq!((store.len(), store.capacity()), (2, 2));
    assert_eq!(store.latest(), Some((30, bits(&[5.0, 6.0]))));
    assert_eq!(
        store.snapshot(),
        Snapshot {
            timestamps: vec![20, 30],
            columns: vec![bits(&[3.0, 5.0]), bits(&[f64::NAN, 6.0])],
        }
    );
}

#[test]
fn what_was_written_is_read() {
    let mut store = Store::new(2, 2).unwrap();
    for time in [10, 20, 30] {
        store.push(time, &bits(&[time as f64, f64::NAN])).unwrap();
        assert_eq!(store.latest(), Some((time, bits(&[time as f64, f64::NAN]))));
        let only = store.select(time, time, &[0]);
        assert_eq!(only.timestamps, [time]);
        assert_eq!(only.columns, [bits(&[time as f64])]);
    }
    assert_eq!(store.snapshot().timestamps, [20, 30]);
}

#[test]
fn a_refused_record_changes_nothing() {
    let mut store = Store::new(4, 1).unwrap();
    assert_eq!(store.push(10, &[1]), Ok(()));
    assert_eq!(store.push(20, &[1, 2]), Err(PushError::WrongWidth));
    assert_eq!(store.push(10, &[2]), Err(PushError::OutOfOrder));
    assert_eq!(store.push(9, &[2]), Err(PushError::OutOfOrder));
    assert_eq!(store.latest(), Some((10, vec![1])));
    assert_eq!(store.len(), 1);
    assert_eq!(
        PushError::WrongWidth.message(),
        "the record does not have a value for every metric"
    );
    assert_eq!(PushError::OutOfOrder.message(), "the record is not newer than the last");
}

#[test]
fn a_selection_takes_both_ends_of_its_range_and_the_columns_asked_for() {
    let mut store = Store::new(8, 3).unwrap();
    for t in 1..=6 {
        store.push(t * 10, &[t, t + 100, t + 200]).unwrap();
    }
    assert_eq!(
        store.select(20, 40, &[2, 0]),
        Snapshot {
            timestamps: vec![20, 30, 40],
            columns: vec![vec![202, 203, 204], vec![2, 3, 4]],
        }
    );
    assert_eq!(
        store.select(61, u64::MAX, &[1]),
        Snapshot { timestamps: vec![], columns: vec![vec![]] }
    );
}

#[test]
fn a_store_is_sized_by_its_records_and_can_be_too_large() {
    assert_eq!(Store::bytes_for(10, 3), Some(320));
    assert_eq!(Store::bytes_for(120_960, 15), Some(15_482_880));
    assert_eq!(Store::bytes_for(usize::MAX, 15), None);
    assert_eq!(Store::bytes_for(1, usize::MAX), None);
    assert!(Store::new(usize::MAX, 1).is_none());
    assert!(Store::new(1, 1).is_some());
}
