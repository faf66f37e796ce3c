use bytes::Bytes;
use quickwit::acks::QueuePosition;
use quickwit::fetch::IngestV2Error;
use quickwit::gc::QueueKey;
use quickwit::mem_queue::{MemQueue, MemQueueUsage, PositionBound};
use quickwit::object_wal::GcState;
use quickwit::position::Position;
use quickwit::state::{
    apply_positions, check_decommissioning_status, check_locked, clear_shard, delete_shard,
    evict_doc_mapper, find_most_capacity_shard, finish_truncate, get_shard_snapshot,
    persist_policy, queues_to_recover, recover_local_shard, recover_local_shards,
    recover_mem_shard, recover_mem_shards, replay_object_wal_into_mem_queues, reset_shards,
    status_after_init, truncate_shard, DecommissioningStep, DeleteQueueOutcome, IngesterShard,
    IngesterStatus, LocalQueue, PersistPolicy, QueuePublishPosition, RecoveredQueue, ResetStep,
    ShardState, TruncateOutcome, TruncateStep,
};
use quickwit::text_map::TextMap;
use quickwit::wal::reader::WalRecord;
use quickwit::wal::WalId;

fn key(index_uid: &str, source_id: &str, shard_id: &str) -> QueueKey {
    QueueKey {
        index_uid: index_uid.to_string(),
        source_id: source_id.to_string(),
        shard_id: shard_id.to_string(),
    }
}

fn shard(key: QueueKey, state: ShardState, mem_queue: Option<MemQueue>) -> IngesterShard {
    IngesterShard {
        key,
        state,
        replication_position_inclusive: Position::Beginning,
        truncation_position_inclusive: Position::Beginning,
        is_advertisable: true,
        mem_queue,
    }
}

fn record(queue_id: &str, position: u64, text: &str) -> WalRecord {
    WalRecord {
        queue_id: queue_id.to_string(),
        position,
        record: Bytes::copy_from_slice(text.as_bytes()),
    }
}

#[test]
fn ingesters_cannot_be_used_before_they_are_ready() {
    assert_eq!(
        check_locked(IngesterStatus::Initializing, IngesterStatus::Initializing),
        Err(IngestV2Error::Internal("ingester is initializing".to_string()))
    );
    assert_eq!(
        check_locked(IngesterStatus::Ready, IngesterStatus::Failed),
        Err(IngestV2Error::Internal("failed to initialize ingester".to_string()))
    );
    assert_eq!(check_locked(IngesterStatus::Ready, IngesterStatus::Ready), Ok(()));
    assert_eq!(status_after_init(true, false, true), IngesterStatus::Failed);
    assert_eq!(status_after_init(false, false, true), IngesterStatus::Ready);
    assert_eq!(status_after_init(true, true, false), IngesterStatus::Failed);
    assert_eq!(persist_policy(true), PersistPolicy::DoNothing);
    assert_eq!(persist_policy(false), PersistPolicy::FlushOnDelay { interval_secs: 5 });
}

#[test]
fn decommissioning_waits_for_shards() {
    assert_eq!(
        check_decommissioning_status(IngesterStatus::Ready, &vec![]),
        DecommissioningStep::Ignore
    );
    assert_eq!(
        check_decommissioning_status(IngesterStatus::Decommissioning, &vec![true, false]),
        DecommissioningStep::Notify
    );
    assert_eq!(
        check_decommissioning_status(IngesterStatus::Decommissioning, &vec![true]),
        DecommissioningStep::SetDecommissioned
    );
}

fn three_shards() -> TextMap<IngesterShard> {
    let mut shards = TextMap::new();
    shards.insert("i:0/s/1", shard(key("i:0", "s", "1"), ShardState::Open, None));
    shards.insert("i:0/s/2", shard(key("i:0", "s", "2"), ShardState::Open, None));
    shards.insert("i:0/s/3", shard(key("i:0", "s", "3"), ShardState::Closed, None));
    shards
}

#[test]
fn the_open_shard_with_most_capacity_is_chosen() {
    let shards = three_shards();
    let index = find_most_capacity_shard(&shards, &vec![5, 9, 100], "i:0", "s").unwrap();
    assert_eq!(shards.key_at(index), "i:0/s/2");
    assert_eq!(find_most_capacity_shard(&shards, &vec![5, 9, 100], "i:1", "s"), None);
    assert_eq!(find_most_capacity_shard(&shards, &vec![5, 9, 100], "i:0", "t"), None);
}

fn acknowledged(queue_id: &str, offset: u64) -> QueuePosition {
    QueuePosition {
        queue_id: queue_id.to_string(),
        position: Position::Offset(offset),
    }
}

#[test]
fn acknowledged_positions_reach_their_shards() {
    let mut shards = three_shards();
    apply_positions(
        &mut shards,
        &vec![
            acknowledged("i:0/s/1", 3),
            acknowledged("i:0/s/9", 5),
            acknowledged("i:0/s/2", 1),
            acknowledged("i:0/s/1", 7),
        ],
    );
    assert_eq!(shards.len(), 3);
    let replicated = |queue_id: &str| shards.get(queue_id).unwrap().replication_position_inclusive;
    assert_eq!(replicated("i:0/s/1"), Position::Offset(7));
    assert_eq!(replicated("i:0/s/2"), Position::Offset(1));
    assert_eq!(replicated("i:0/s/3"), Position::Beginning);
    assert!(shards.get("i:0/s/9").is_none());
}

#[test]
fn snapshots_count_open_and_name_closed_shards() {
    let mut shards = three_shards();
    shards.insert("i:1/s/1", shard(key("i:1", "s", "1"), ShardState::Closed, None));
    shards.insert("i:2/s/1", shard(key("i:2", "s", "1"), ShardState::Open, None));
    let (open_counts, closed_shards) = get_shard_snapshot(&shards);
    let counted = |index_uid: &str| {
        open_counts.iter().find(|entry| entry.0 == index_uid).map(|entry| entry.2)
    };
    assert_eq!(open_counts.len(), 3);
    assert_eq!(counted("i:0"), Some(2));
    assert_eq!(counted("i:1"), Some(0));
    assert_eq!(counted("i:2"), Some(1));
    // Only sources with closed shards are named.
    assert_eq!(closed_shards.len(), 2);
    let closed = |index_uid: &str| {
        closed_shards.iter().find(|entry| entry.index_uid == index_uid).unwrap()
    };
    assert_eq!(closed("i:0").shard_ids, ["3"]);
    assert_eq!(closed("i:1").shard_ids, ["1"]);
}

fn contents(queue: &MemQueue) -> Vec<(u64, Bytes)> {
    queue.range(PositionBound::Unbounded, PositionBound::Unbounded, usize::MAX)
}

#[test]
fn logs_are_replayed_into_queues() {
    let mut usage = MemQueueUsage::new();
    let queues = replay_object_wal_into_mem_queues(
        &mut usage,
        &vec!["q1".to_string(), "q3".to_string()],
        vec![
            record("q1", 4, "a"),
            record("q1", 5, "b"),
            // Replayed a second time.
            record("q1", 5, "b"),
            record("q2", 0, "c"),
        ],
    );
    assert_eq!(queues.len(), 3);
    let q1 = queues.get("q1").unwrap();
    assert_eq!(contents(q1).len(), 2);
    assert_eq!(q1.first_position(), 4);
    assert_eq!(q1.next_position(), 6);
    assert_eq!(queues.get("q2").unwrap().next_position(), 1);
    assert!(queues.get("q3").unwrap().is_empty());
    assert_eq!(usage.num_records(), 3);
    assert_eq!(usage.num_bytes(), 3);
}

#[test]
fn local_records_are_discarded_and_local_names_kept() {
    assert_eq!(persist_policy(true), PersistPolicy::DoNothing);
    assert_eq!(status_after_init(true, true, true), IngesterStatus::Ready);
    let names = queues_to_recover(
        vec!["i:0/s/2".to_string()],
        &vec!["i:0/s/1".to_string(), "?".to_string()],
    );
    assert_eq!(names, ["i:0/s/2", "i:0/s/1", "?"]);
    let mut usage = MemQueueUsage::new();
    let mut queues = replay_object_wal_into_mem_queues(
        &mut usage,
        &names,
        vec![record("i:0/s/2", 0, "durable"), record("?", 0, "lost")],
    );
    assert_eq!(usage.num_records(), 2);
    let mut shards = TextMap::new();
    for (queue_id, shard_id) in [("i:0/s/1", Some("1")), ("i:0/s/2", Some("2")), ("?", None)] {
        let mem_queue = queues.remove(queue_id).unwrap();
        let recovered = recover_mem_shard(
            &mut shards,
            &mut usage,
            RecoveredQueue {
                queue_id: queue_id.to_string(),
                key: shard_id.map(|shard_id| key("i:0", "s", shard_id)),
                mem_queue,
            },
        );
        assert_eq!(recovered, shard_id.is_some());
    }
    // The local queue is recovered by name, empty and closed: its records are discarded.
    let local = shards.get("i:0/s/1").unwrap();
    assert_eq!(local.state, ShardState::Closed);
    assert_eq!(local.replication_position_inclusive, Position::Beginning);
    assert!(local.mem_queue.as_ref().unwrap().is_empty());
    let durable = shards.get("i:0/s/2").unwrap();
    assert_eq!(durable.state, ShardState::Closed);
    assert_eq!(durable.replication_position_inclusive, Position::Offset(0));
    assert_eq!(
        contents(durable.mem_queue.as_ref().unwrap()),
        vec![(0, Bytes::from("durable"))]
    );
    // A queue that belongs to no shard gives back what it held.
    assert_eq!(usage.num_records(), 1);
    assert_eq!(usage.num_bytes(), 7);
}

#[test]
fn every_local_queue_is_recovered() {
    let mut shards = TextMap::new();
    // Partially truncated, fully truncated, and never written to.
    let mut queues: Vec<LocalQueue> = [("1", 1, Some(2)), ("2", 2, Some(1)), ("3", 0, None)]
        .into_iter()
        .map(|(shard_id, start, end)| LocalQueue {
            queue_id: shard_id.to_string(),
            key: Some(key("i:0", "s", shard_id)),
            start,
            end,
        })
        .collect();
    // Its name tells no shard.
    queues.insert(1, LocalQueue { queue_id: "?".to_string(), key: None, start: 0, end: None });
    assert_eq!(recover_local_shards(&mut shards, queues), 3);
    assert_eq!(shards.len(), 3);
    let positions = |shard_id: &str| {
        let shard = shards.get(shard_id).unwrap();
        assert_eq!(shard.state, ShardState::Closed);
        assert!(shard.is_advertisable);
        (shard.replication_position_inclusive, shard.truncation_position_inclusive)
    };
    assert_eq!(positions("1"), (Position::Offset(2), Position::Offset(0)));
    assert_eq!(positions("2"), (Position::Offset(1), Position::Offset(1)));
    assert_eq!(positions("3"), (Position::Beginning, Position::Beginning));
}

#[test]
fn doc_mappers_go_with_their_last_shard() {
    let mut doc_mappers = TextMap::new();
    doc_mappers.insert("mapping", 1u8);
    assert_eq!(evict_doc_mapper(&mut doc_mappers, "mapping", 2), None);
    assert_eq!(doc_mappers.len(), 1);
    assert_eq!(evict_doc_mapper(&mut doc_mappers, "mapping", 1), Some(1));
    assert_eq!(evict_doc_mapper(&mut doc_mappers, "mapping", 1), None);
}

#[test]
fn every_replayed_queue_is_recovered() {
    let mut usage = MemQueueUsage::new();
    let mut shards = TextMap::new();
    let mut recovered_queue = |queue_id: &str, key: Option<QueueKey>, records: &[&'static str]| {
        let mut mem_queue = MemQueue::new(0);
        for record in records {
            mem_queue.append(&mut usage, vec![Bytes::from(*record)]);
        }
        RecoveredQueue { queue_id: queue_id.to_string(), key, mem_queue }
    };
    let queues = vec![
        recovered_queue("q1", Some(key("i:0", "s", "1")), &["a", "b"]),
        recovered_queue("?", None, &["lost"]),
        recovered_queue("q2", Some(key("i:0", "s", "2")), &[]),
    ];
    assert_eq!(usage.num_records(), 3);
    assert_eq!(recover_mem_shards(&mut shards, &mut usage, queues), 2);
    assert_eq!(shards.len(), 2);
    for (queue_id, replicated) in [("q1", Position::Offset(1)), ("q2", Position::Beginning)] {
        let shard = shards.get(queue_id).unwrap();
        assert_eq!(shard.state, ShardState::Closed);
        assert!(shard.is_advertisable);
        assert_eq!(shard.replication_position_inclusive, replicated);
    }
    // What belongs to no shard is not held on to.
    assert_eq!(usage.num_records(), 2);
    assert_eq!(usage.num_bytes(), 2);
}

#[test]
fn shards_are_recovered_closed() {
    let mut shards = TextMap::new();
    assert!(recover_local_shard(
        &mut shards,
        LocalQueue {
            queue_id: "q1".to_string(),
            key: Some(key("i:0", "s", "1")),
            start: 3,
            end: Some(7),
        }
    ));
    let recovered = shards.get("q1").unwrap();
    assert_eq!(recovered.state, ShardState::Closed);
    assert_eq!(recovered.replication_position_inclusive, Position::Offset(7));
    assert_eq!(recovered.truncation_position_inclusive, Position::Offset(2));
    assert!(!recover_local_shard(
        &mut shards,
        LocalQueue { queue_id: "?".to_string(), key: None, start: 0, end: None }
    ));

    let mut usage = MemQueueUsage::new();
    let mut mem_queue = MemQueue::new(2);
    mem_queue.append(&mut usage, vec![Bytes::from("x")]);
    assert!(recover_mem_shard(
        &mut shards,
        &mut usage,
        RecoveredQueue {
            queue_id: "q2".to_string(),
            key: Some(key("i:0", "s", "2")),
            mem_queue,
        }
    ));
    let recovered = shards.get("q2").unwrap();
    assert_eq!(recovered.state, ShardState::Closed);
    assert_eq!(recovered.replication_position_inclusive, Position::Offset(2));
    assert_eq!(recovered.truncation_position_inclusive, Position::Offset(1));
    assert_eq!(shards.len(), 2);
}

#[test]
fn deleted_shards_release_records_and_objects() {
    let mut usage = MemQueueUsage::new();
    let mut mem_queue = MemQueue::new(0);
    mem_queue.append(&mut usage, vec![Bytes::from("abc")]);
    let mut shards = TextMap::new();
    shards.insert("q", shard(key("i:0", "s", "1"), ShardState::Open, Some(mem_queue)));
    let mut gc = GcState::new();
    gc.pin_records(WalId(1), "q", 0);
    let mut object_wal = Some(gc);

    clear_shard(&mut shards, &mut usage, "q");
    assert_eq!(usage.num_bytes(), 0);
    // A queue that could not be deleted keeps its shard.
    assert!(delete_shard(&mut shards, &mut object_wal, "q", DeleteQueueOutcome::IoError).is_none());
    assert_eq!(shards.len(), 1);
    assert!(
        delete_shard(&mut shards, &mut object_wal, "q", DeleteQueueOutcome::MissingQueue).is_some()
    );
    assert_eq!(shards.len(), 0);
    assert_eq!(object_wal.unwrap().collectable(WalId(1)), [WalId(1)]);
}

#[test]
fn shards_are_truncated_onwards_only() {
    let mut usage = MemQueueUsage::new();
    let mut mem_queue = MemQueue::new(0);
    mem_queue.append(&mut usage, vec![Bytes::from("a"), Bytes::from("b"), Bytes::from("c")]);
    let mut shards = TextMap::new();
    shards.insert("mem", shard(key("i:0", "s", "1"), ShardState::Open, Some(mem_queue)));
    shards.insert("local", shard(key("i:0", "s", "2"), ShardState::Open, None));
    let mut object_wal = None;

    assert_eq!(
        truncate_shard(&mut shards, &mut usage, "missing", Position::Offset(1)),
        TruncateStep::Ignore
    );
    assert_eq!(
        truncate_shard(&mut shards, &mut usage, "local", Position::Offset(1)),
        TruncateStep::TruncateLog(1)
    );
    finish_truncate(
        &mut shards,
        &mut object_wal,
        "local",
        Position::Offset(1),
        TruncateOutcome::Truncated,
    );
    assert_eq!(
        truncate_shard(&mut shards, &mut usage, "local", Position::Offset(0)),
        TruncateStep::Ignore
    );
    assert_eq!(
        truncate_shard(&mut shards, &mut usage, "mem", Position::Offset(1)),
        TruncateStep::Finish
    );
    finish_truncate(
        &mut shards,
        &mut object_wal,
        "mem",
        Position::Offset(1),
        TruncateOutcome::Truncated,
    );
    let truncated = shards.get("mem").unwrap();
    assert_eq!(truncated.truncation_position_inclusive, Position::Offset(1));
    assert_eq!(
        contents(truncated.mem_queue.as_ref().unwrap()),
        vec![(2, Bytes::from("c"))]
    );
    assert_eq!(usage.num_records(), 1);

    // A queue that is missing takes its shard along.
    assert_eq!(
        truncate_shard(&mut shards, &mut usage, "local", Position::Offset(5)),
        TruncateStep::TruncateLog(5)
    );
    finish_truncate(
        &mut shards,
        &mut object_wal,
        "local",
        Position::Offset(5),
        TruncateOutcome::MissingQueue,
    );
    assert!(!shards.contains("local"));
}

#[test]
fn resets_delete_before_they_truncate() {
    let steps = reset_shards(
        vec!["q1".to_string(), "q2".to_string()],
        vec![QueuePublishPosition { queue_id: "q3".to_string(), position: Position::Offset(4) }],
    );
    assert!(matches!(&steps[0], ResetStep::Delete(queue_id) if queue_id == "q1"));
    assert!(matches!(&steps[1], ResetStep::Delete(queue_id) if queue_id == "q2"));
    assert!(matches!(
        &steps[2],
        ResetStep::Truncate(queue_id, Position::Offset(4)) if queue_id == "q3"
    ));
}
