use std::collections::HashSet;

use yasc::game::{IdProducer, ID, NO_ID};

#[test]
fn check_producer_has_no_duplicates() {
    let mut used_values: HashSet<ID> = HashSet::default();
    let mut producer = IdProducer::default();

    let size: usize = 100000;
    for _ in 1..size {
        used_values.insert(producer.next_id());
    }
    assert_eq!(used_values.len(), size - 1);
    assert!(!used_values.contains(&NO_ID));
}

#[test]
fn producer_counts_from_one() {
    let mut producer = IdProducer::default();
    assert_eq!(producer.last_issued_id(), NO_ID);
    assert_eq!(producer.next_id(), 1);
    assert_eq!(producer.next_id(), 2);
    assert_eq!(producer.last_issued_id(), 2);
}
