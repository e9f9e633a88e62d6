use iter_queue::{merge_all, IterQueue, QueueElement};

fn drain_by_next(q: &mut IterQueue) -> Vec<u64> {
    let mut out = Vec::new();
    while let Some(v) = q.next() {
        out.push(v);
    }
    out
}

#[test]
fn it_works() {
    let nums = vec![vec![7, 5, 2], vec![6, 3, 1], vec![9, 4], vec![8]];
    let iq = IterQueue::from_iter(nums);
    let flat_nums: Vec<u64> = iq.drain();
    assert_eq!(flat_nums, vec![9, 8, 7, 6, 5, 4, 3, 2, 1]);
}

#[test]
fn empty_collection_is_immediately_exhausted() {
    let mut q = IterQueue::from_iter(Vec::new());
    assert_eq!(q.next(), None);
}

#[test]
fn new_queue_is_immediately_exhausted() {
    let mut q = IterQueue::new();
    assert_eq!(q.next(), None);
}

#[test]
fn all_empty_sequences_are_immediately_exhausted() {
    let mut q = IterQueue::from_iter(vec![vec![], vec![], vec![]]);
    assert_eq!(q.next(), None);
    assert_eq!(q.len(), 0);
}

#[test]
fn single_sequence_passes_through_unchanged() {
    let q = IterQueue::from_iter(vec![vec![7, 5, 2]]);
    assert_eq!(q.drain(), vec![7, 5, 2]);
}

#[test]
fn duplicates_are_all_kept() {
    let q = IterQueue::from_iter(vec![vec![5, 5, 3], vec![5, 4]]);
    assert_eq!(q.drain(), vec![5, 5, 5, 4, 3]);
}

#[test]
fn exhaustion_is_idempotent() {
    let mut q = IterQueue::from_iter(vec![vec![2, 1], vec![3]]);
    assert_eq!(drain_by_next(&mut q), vec![3, 2, 1]);
    for _ in 0..5 {
        assert_eq!(q.next(), None);
    }
}

#[test]
fn incremental_drain_equals_batch_sort() {
    let inputs = vec![
        vec![90, 40, 40, 2],
        vec![],
        vec![77, 41, 3, 3, 1],
        vec![100],
        vec![40],
    ];
    let mut expected: Vec<u64> = inputs.iter().flatten().copied().collect();
    expected.sort();
    expected.reverse();
    let mut q = IterQueue::from_iter(inputs);
    assert_eq!(drain_by_next(&mut q), expected);
}

#[test]
fn heap_size_never_exceeds_nonempty_input_count() {
    let inputs = vec![vec![9, 6], vec![], vec![8, 3, 1], vec![], vec![7]];
    let mut q = IterQueue::from_iter(inputs);
    assert_eq!(q.len(), 3);
    while let Some(_) = q.next() {
        assert!(q.len() <= 3);
    }
    assert_eq!(q.len(), 0);
}

#[test]
fn merge_all_sorts_the_concatenation() {
    let merged = merge_all(vec![vec![7, 5, 2], vec![6, 3, 1], vec![9, 4], vec![8]]);
    assert_eq!(merged, vec![9, 8, 7, 6, 5, 4, 3, 2, 1]);
}

#[test]
fn cursor_try_new_on_empty_sequence_gives_nothing() {
    assert!(QueueElement::try_new(vec![]).is_none());
}

#[test]
fn cursors_compare_by_head_alone() {
    let a = QueueElement::try_new(vec![5, 1]).unwrap();
    let b = QueueElement::try_new(vec![5, 9, 9]).unwrap();
    let c = QueueElement::try_new(vec![6]).unwrap();
    assert!(a == b);
    assert!(a != c);
    assert!(a < c);
    assert!(c > b);
}

#[test]
fn cursor_iterate_walks_the_sequence() {
    let c = QueueElement::try_new(vec![4, 2]).unwrap();
    let (first, c) = c.iterate();
    assert_eq!(first, 4);
    let (second, c) = c.unwrap().iterate();
    assert_eq!(second, 2);
    assert!(c.is_none());
}
