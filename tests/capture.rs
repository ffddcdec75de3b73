use std::sync::Arc;

use arrow::array::{Int32Array, RecordBatch};
use arrow::datatypes::{DataType, Field, Schema};
use query_cache::{CacheAction, CacheCapture, StreamEvent};

fn batch(values: Vec<i32>) -> RecordBatch {
    let schema = Arc::new(Schema::new(vec![Field::new("v", DataType::Int32, false)]));
    RecordBatch::try_new(schema, vec![Arc::new(Int32Array::from(values))]).unwrap()
}

type Item = Result<RecordBatch, String>;

/// Feeds `items` through a capture with budget `max_size`, each successful
/// batch measuring what arrow reports, and returns what the consumer saw and
/// what was stored.
fn run(max_size: u64, items: Vec<Item>, reach_end: bool) -> (Vec<Item>, Vec<Vec<RecordBatch>>) {
    let mut capture: CacheCapture<RecordBatch> = CacheCapture::new(max_size);
    let mut seen = Vec::new();
    let mut stored = Vec::new();
    for item in items {
        let footprint = match &item {
            Ok(b) => b.get_array_memory_size(),
            Err(_) => 0,
        };
        match capture.step(StreamEvent::Next(item), footprint) {
            CacheAction::Forward(x) => seen.push(x),
            CacheAction::Store(records) => stored.push(records),
            CacheAction::Skip => {},
        }
    }
    if reach_end {
        for _ in 0..2 {
            match capture.step(StreamEvent::<RecordBatch, String>::End, 0) {
                CacheAction::Forward(_) => panic!("the end forwards nothing"),
                CacheAction::Store(records) => stored.push(records),
                CacheAction::Skip => {},
            }
        }
    }
    (seen, stored)
}

fn mixed_items() -> Vec<Item> {
    vec![
        Ok(batch(vec![1, 2, 3])),
        Err("scan failed".to_string()),
        Ok(batch(vec![4])),
        Err("again".to_string()),
        Ok(batch(vec![5, 6])),
    ]
}

#[test]
fn elements_pass_through_unchanged_whatever_the_budget() {
    for max_size in [0u64, 1, 100, u64::MAX] {
        let (seen, _) = run(max_size, mixed_items(), true);
        assert_eq!(seen, mixed_items());
    }
}

#[test]
fn complete_stream_under_budget_is_stored_once_in_order() {
    let (_, stored) = run(u64::MAX, mixed_items(), true);
    assert_eq!(stored.len(), 1);
    assert_eq!(stored[0], vec![batch(vec![1, 2, 3]), batch(vec![4]), batch(vec![5, 6])]);
}

#[test]
fn complete_stream_over_budget_is_not_stored() {
    let (_, stored) = run(1, mixed_items(), true);
    assert!(stored.is_empty());
}

#[test]
fn stopping_early_stores_nothing() {
    let mut items = mixed_items();
    items.truncate(3);
    let (seen, stored) = run(u64::MAX, items, false);
    assert_eq!(seen.len(), 3);
    assert!(stored.is_empty());
}

#[test]
fn empty_stream_stores_an_empty_result() {
    let (seen, stored) = run(10, vec![], true);
    assert!(seen.is_empty());
    assert_eq!(stored, vec![Vec::<RecordBatch>::new()]);
}

#[test]
fn zero_budget_never_stores() {
    let (_, stored) = run(0, vec![], true);
    assert!(stored.is_empty());
}

#[test]
fn errors_alone_still_store_an_empty_result() {
    let items = vec![Err("a".to_string()), Err("b".to_string())];
    let (seen, stored) = run(10, items.clone(), true);
    assert_eq!(seen, items);
    assert_eq!(stored, vec![Vec::<RecordBatch>::new()]);
}

#[test]
fn total_just_below_budget_is_stored() {
    let mut capture: CacheCapture<RecordBatch> = CacheCapture::new(10);
    capture.record_batch(&batch(vec![1]), 4);
    capture.record_batch(&batch(vec![2]), 5);
    assert!(capture.is_under_budget());
    match capture.step(StreamEvent::<RecordBatch, String>::End, 0) {
        CacheAction::Store(records) => assert_eq!(records, vec![batch(vec![1]), batch(vec![2])]),
        _ => panic!("a total of 9 under a budget of 10 is stored"),
    }
}

#[test]
fn total_equal_to_budget_stops_accumulation() {
    let mut capture: CacheCapture<RecordBatch> = CacheCapture::new(10);
    capture.record_batch(&batch(vec![1]), 4);
    assert!(capture.is_under_budget());
    capture.record_batch(&batch(vec![2]), 6);
    assert!(!capture.is_under_budget());
    capture.record_batch(&batch(vec![3]), 0);
    assert!(!capture.is_under_budget());
    match capture.step(StreamEvent::<RecordBatch, String>::End, 0) {
        CacheAction::Skip => {},
        _ => panic!("a total equal to the budget is not stored"),
    }
}

#[test]
fn single_batch_at_budget_is_not_stored() {
    let mut capture: CacheCapture<RecordBatch> = CacheCapture::new(7);
    capture.record_batch(&batch(vec![1]), 7);
    assert!(!capture.is_under_budget());
}

#[test]
fn huge_footprints_saturate_instead_of_overflowing() {
    let mut capture: CacheCapture<RecordBatch> = CacheCapture::new(u64::MAX);
    capture.record_batch(&batch(vec![1]), usize::MAX - 1);
    assert!(capture.is_under_budget());
    capture.record_batch(&batch(vec![2]), usize::MAX);
    assert!(!capture.is_under_budget());
}

#[test]
fn only_the_first_end_can_store() {
    let (_, stored) = run(u64::MAX, vec![Ok(batch(vec![9]))], true);
    assert_eq!(stored, vec![vec![batch(vec![9])]]);
}

#[test]
fn measured_footprint_decides_against_a_tight_budget() {
    let b = batch(vec![1, 2, 3, 4]);
    let size = b.get_array_memory_size() as u64;
    let (_, stored) = run(size, vec![Ok(b.clone())], true);
    assert!(stored.is_empty());
    let (_, stored) = run(size + 1, vec![Ok(b.clone())], true);
    assert_eq!(stored, vec![vec![b]]);
}
