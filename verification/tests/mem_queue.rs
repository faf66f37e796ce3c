use bytes::Bytes;
use quickwit::mem_queue::{MemQueue, MemQueueUsage, PositionBound};

fn b(s: &str) -> Bytes {
    Bytes::copy_from_slice(s.as_bytes())
}

fn all(queue: &MemQueue, max_num_bytes: usize) -> Vec<(u64, Bytes)> {
    queue.range(PositionBound::Unbounded, PositionBound::Unbounded, max_num_bytes)
}

fn from(queue: &MemQueue, position: u64) -> Vec<(u64, Bytes)> {
    queue.range(PositionBound::Included(position), PositionBound::Unbounded, usize::MAX)
}

#[test]
fn test_append_range_truncate() {
    let mut usage = MemQueueUsage::default();
    let mut queue = MemQueue::new(0);
    assert!(queue.is_empty());
    assert_eq!(queue.last_position(), None);

    assert_eq!(queue.append(&mut usage, vec![b("a"), b("bb")]), 1);
    assert_eq!(queue.append(&mut usage, vec![b("ccc")]), 2);
    assert_eq!(usage.num_bytes(), 6);
    assert_eq!(usage.num_records(), 3);

    let everything = all(&queue, usize::MAX);
    assert_eq!(everything.len(), 3);
    assert_eq!(everything[0], (0, b("a")));
    assert_eq!(everything[2], (2, b("ccc")));
    assert_eq!(from(&queue, 1).len(), 2);
    assert_eq!(
        queue.range(PositionBound::Included(1), PositionBound::Excluded(2), usize::MAX),
        vec![(1, b("bb"))]
    );
    assert!(from(&queue, 3).is_empty());
    // Byte cap: at least one, then stop before exceeding.
    assert_eq!(all(&queue, 1).len(), 1);
    assert_eq!(all(&queue, 3).len(), 2);

    queue.truncate(&mut usage, 1);
    assert_eq!(queue.first_position(), 2);
    assert_eq!(all(&queue, usize::MAX), vec![(2, b("ccc"))]);
    assert_eq!(usage.num_bytes(), 3);
    // Positions keep increasing after truncation.
    assert_eq!(queue.append(&mut usage, vec![b("d")]), 3);
    // Truncating everything, including past the end.
    queue.truncate(&mut usage, 10);
    assert!(queue.is_empty());
    assert_eq!(queue.next_position(), 11);
    assert_eq!(usage.num_bytes(), 0);
    assert_eq!(queue.append(&mut usage, vec![b("e")]), 11);
    queue.release(&mut usage);
    assert_eq!(usage.num_bytes(), 0);
    assert_eq!(usage.num_records(), 0);
}

#[test]
fn test_append_at_for_replay() {
    let mut usage = MemQueueUsage::default();
    let mut queue = MemQueue::new(0);
    assert!(queue.append_at(&mut usage, 5, b("f")));
    assert!(queue.append_at(&mut usage, 6, b("g")));
    // Already present.
    assert!(!queue.append_at(&mut usage, 6, b("dup")));
    // Gap.
    assert!(queue.append_at(&mut usage, 9, b("j")));
    assert_eq!(all(&queue, usize::MAX), vec![(5, b("f")), (6, b("g")), (9, b("j"))]);
    assert_eq!(queue.next_position(), 10);
    assert_eq!(usage.num_records(), 3);
    queue.truncate(&mut usage, 7);
    assert_eq!(all(&queue, usize::MAX), vec![(9, b("j"))]);
    assert_eq!(queue.append(&mut usage, vec![b("k")]), 10);
}

#[test]
fn appended_records_are_found_at_their_positions() {
    let mut usage = MemQueueUsage::new();
    let mut queue = MemQueue::new(7);
    assert_eq!(queue.append(&mut usage, vec![b("x"), b("y")]), 8);
    assert_eq!(from(&queue, 8), vec![(8, b("y"))]);
    assert_eq!(queue.first_position(), 7);
    assert_eq!(queue.last_position(), Some(8));
    assert_eq!(queue.num_bytes(), 2);
}

#[test]
fn truncating_twice_is_truncating_once() {
    let mut usage = MemQueueUsage::new();
    let mut queue = MemQueue::new(0);
    queue.append(&mut usage, vec![b("a"), b("b"), b("c")]);
    queue.truncate(&mut usage, 0);
    queue.truncate(&mut usage, 0);
    assert_eq!(all(&queue, usize::MAX), vec![(1, b("b")), (2, b("c"))]);
    assert_eq!(usage.num_records(), 2);
}

#[test]
fn clearing_gives_the_usage_back() {
    let mut usage = MemQueueUsage::new();
    let mut kept = MemQueue::new(0);
    let mut queue = MemQueue::new(0);
    kept.append(&mut usage, vec![b("kept")]);
    queue.append(&mut usage, vec![b("gone"), b("gone too")]);
    queue.clear(&mut usage);
    assert!(queue.is_empty());
    assert_eq!(queue.next_position(), 2);
    assert_eq!(usage.num_bytes(), 4);
    assert_eq!(usage.num_records(), 1);
}

#[test]
fn the_first_position_is_that_of_a_record() {
    let mut usage = MemQueueUsage::new();
    let mut queue = MemQueue::new(0);
    for position in [5, 6, 9] {
        assert!(queue.append_at(&mut usage, position, b("x")));
    }
    assert_eq!(queue.first_position(), 5);
    queue.truncate(&mut usage, 7);
    assert_eq!(queue.first_position(), 9);
    queue.truncate(&mut usage, 9);
    assert_eq!(queue.first_position(), 10);
    assert_eq!(queue.last_position(), Some(9));
}

#[test]
fn truncation_alone_gives_no_last_position() {
    let mut usage = MemQueueUsage::new();
    let mut queue = MemQueue::new(0);
    queue.truncate(&mut usage, 10);
    assert_eq!(queue.last_position(), None);
    assert_eq!(queue.next_position(), 11);
    assert_eq!(queue.append(&mut usage, vec![b("k")]), 11);
    assert_eq!(queue.last_position(), Some(11));
}

#[test]
fn empty_records_are_kept_and_released() {
    let mut usage = MemQueueUsage::new();
    let mut queue = MemQueue::new(0);
    queue.append(&mut usage, vec![Bytes::new(), b("x"), Bytes::new()]);
    assert_eq!(usage.num_records(), 3);
    assert_eq!(
        all(&queue, usize::MAX),
        vec![(0, Bytes::new()), (1, b("x")), (2, Bytes::new())]
    );
    assert_eq!(queue.count_between(1, 3), 2);
    queue.truncate(&mut usage, 0);
    assert_eq!(usage.num_records(), 2);
    queue.clear(&mut usage);
    assert_eq!(usage.num_records(), 0);
    assert_eq!(usage.num_bytes(), 0);
    assert!(queue.is_empty());
    assert_eq!(queue.next_position(), 3);
}

#[test]
fn the_usage_is_the_sum_over_the_queues() {
    let mut usage = MemQueueUsage::new();
    let mut first = MemQueue::new(0);
    let mut second = MemQueue::new(4);
    first.append(&mut usage, vec![b("a"), b("bb")]);
    second.append_at(&mut usage, 9, b("ccc"));
    assert_eq!(usage.num_bytes(), first.num_bytes() + second.num_bytes());
    first.truncate(&mut usage, 0);
    assert_eq!(usage.num_bytes(), first.num_bytes() + second.num_bytes());
    first.release(&mut usage);
    assert_eq!(usage.num_bytes(), second.num_bytes());
    assert_eq!(usage.num_records(), 1);
    second.release(&mut usage);
    assert_eq!(usage.num_bytes(), 0);
    assert_eq!(usage.num_records(), 0);
}
