use bytes::Bytes;
use quickwit::fetch::{
    after_drain, choose_source, drain_end, drain_error, ingester_unavailable, on_stream_event,
    relisted_tail, retries, scan_step, scanned_objects, BlockStep, DrainEnd, DrainOutcome,
    FetchPayload, FetchSource, FetchStreamTask, IngestV2Error, MultiFetchStream, ObjectWalReplay,
    ScanStep, StreamEvent,
};
use quickwit::mem_queue::{MemQueue, MemQueueUsage};
use quickwit::position::Position;
use quickwit::wal::fence::Fence;
use quickwit::wal::format::{WalBlockMeta, WalFooter, WalObjectHeader};
use quickwit::wal::reader::WalObjectRef;
use quickwit::wal::{StorageError, StorageErrorKind, WalError, WalId};

fn b(s: &str) -> Bytes {
    Bytes::copy_from_slice(s.as_bytes())
}

fn queue(records: &[&str]) -> MemQueue {
    let mut usage = MemQueueUsage::new();
    let mut queue = MemQueue::new(0);
    queue.append(&mut usage, records.iter().map(|record| b(record)).collect());
    queue
}

fn texts(payload: &FetchPayload) -> Vec<String> {
    let batch = &payload.mrecord_batch;
    let mut at = 0;
    batch
        .mrecord_lengths
        .iter()
        .map(|len| {
            let end = at + *len as usize;
            let text = String::from_utf8(batch.mrecord_buffer[at..end].to_vec()).unwrap();
            at = end;
            text
        })
        .collect()
}

#[test]
fn queues_are_served_up_to_the_replication_position() {
    let queue = queue(&["foo", "bar", "baz"]);
    let mut task = FetchStreamTask::new(Position::Beginning, 1024, true);

    // Nothing is durable yet.
    let turn = task.serve_queue(&queue, &Position::Beginning);
    assert!(turn.payload.is_none());
    assert!(turn.has_drained_queue);

    let turn = task.serve_queue(&queue, &Position::Offset(1));
    let payload = turn.payload.unwrap();
    assert_eq!(texts(&payload), ["foo", "bar"]);
    assert_eq!(payload.from_position_exclusive, Position::Beginning);
    assert_eq!(payload.to_position_inclusive, Position::Offset(1));
    assert!(turn.has_drained_queue);

    let turn = task.serve_queue(&queue, &Position::Offset(2));
    let payload = turn.payload.unwrap();
    assert_eq!(texts(&payload), ["baz"]);
    // Payloads chain.
    assert_eq!(payload.from_position_exclusive, Position::Offset(1));
    assert_eq!(payload.to_position_inclusive, Position::Offset(2));
    assert_eq!(task.eof(true, false, &Position::Offset(2)), None);
    assert_eq!(
        task.eof(true, true, &Position::Offset(2)),
        Some(Position::Eof(Some(2)))
    );
}

fn queue_with_a_gap() -> MemQueue {
    let mut usage = MemQueueUsage::new();
    let mut queue = MemQueue::new(0);
    for (position, record) in [(5, "f"), (6, "g"), (9, "j")] {
        assert!(queue.append_at(&mut usage, position, b(record)));
    }
    queue
}

#[test]
fn records_around_a_gap_are_served_once() {
    let queue = queue_with_a_gap();
    let replicated = Position::Offset(9);
    let mut task = FetchStreamTask::new(Position::Beginning, 1024, true);
    let turn = task.serve_queue(&queue, &replicated);
    let payload = turn.payload.unwrap();
    assert_eq!(texts(&payload), ["f", "g", "j"]);
    assert_eq!(payload.to_position_inclusive, Position::Offset(9));
    assert!(turn.has_drained_queue);
    assert_eq!(task.eof(true, true, &replicated), Some(Position::Eof(Some(9))));
    let turn = task.serve_queue(&queue, &replicated);
    assert!(turn.payload.is_none());
    assert!(turn.has_drained_queue);

    // In batches of one record.
    let mut task = FetchStreamTask::new(Position::Beginning, 1, true);
    let turn = task.serve_queue(&queue, &replicated);
    assert_eq!(turn.payload.unwrap().to_position_inclusive, Position::Offset(5));
    assert!(!turn.has_drained_queue);
    task.serve_queue(&queue, &replicated);
    let turn = task.serve_queue(&queue, &replicated);
    let payload = turn.payload.unwrap();
    assert_eq!(texts(&payload), ["j"]);
    assert_eq!(payload.from_position_exclusive, Position::Offset(6));
    assert_eq!(payload.to_position_inclusive, Position::Offset(9));
    assert!(turn.has_drained_queue);
}

#[test]
fn truncated_logs_are_served_at_their_positions() {
    let mut task = FetchStreamTask::new(Position::Beginning, 1024, false);
    let turn = task.serve_log(&vec![(5, b("f")), (6, b("g"))], &Position::Beginning);
    let payload = turn.payload.unwrap();
    assert_eq!(payload.from_position_exclusive, Position::Beginning);
    assert_eq!(payload.to_position_inclusive, Position::Offset(6));
    assert_eq!(task.from_position_inclusive, 7);
}

#[test]
fn logs_are_served_up_to_the_replication_position() {
    let mut task = FetchStreamTask::new(Position::Beginning, 1024, true);
    // Nothing is durable yet.
    assert_eq!(task.readable_range(&Position::Beginning), (0, 0));
    let turn = task.serve_log(&vec![], &Position::Beginning);
    assert!(turn.payload.is_none());
    assert!(turn.has_drained_queue);
    assert_eq!(task.readable_range(&Position::Offset(1)), (0, 2));
    let turn = task.serve_log(&vec![(0, b("foo")), (1, b("bar"))], &Position::Offset(1));
    assert_eq!(turn.payload.unwrap().to_position_inclusive, Position::Offset(1));
    assert_eq!(task.readable_range(&Position::Offset(1)), (2, 2));
    assert_eq!(task.readable_range(&Position::Offset(0)), (2, 2));

    let task = FetchStreamTask::new(Position::Offset(4), 1024, false);
    assert_eq!(task.readable_range(&Position::Beginning), (5, u64::MAX));
}

#[test]
fn serving_starts_after_the_given_position() {
    let queue = queue(&["foo", "bar"]);
    let mut task = FetchStreamTask::new(Position::Offset(0), 1024, true);
    let payload = task.serve_queue(&queue, &Position::Offset(1)).payload.unwrap();
    assert_eq!(texts(&payload), ["bar"]);
    assert_eq!(payload.from_position_exclusive, Position::Offset(0));
}

#[test]
fn batches_stop_before_their_limit() {
    let mut task = FetchStreamTask::new(Position::Beginning, 30, false);
    let records = vec![(0, b("test-doc-foo")), (1, b("test-doc-bar")), (2, b("test-doc-baz"))];
    let turn = task.serve_log(&records, &Position::Beginning);
    assert_eq!(texts(&turn.payload.unwrap()), ["test-doc-foo", "test-doc-bar"]);
    assert!(!turn.has_drained_queue);
    let turn = task.serve_log(&records[2..].to_vec(), &Position::Beginning);
    let payload = turn.payload.unwrap();
    assert_eq!(texts(&payload), ["test-doc-baz"]);
    assert_eq!(payload.from_position_exclusive, Position::Offset(1));
    assert!(turn.has_drained_queue);
}

#[test]
fn a_batch_takes_a_record_that_is_larger_than_its_limit() {
    let mut task = FetchStreamTask::new(Position::Beginning, 10, false);
    let records = vec![(0, b("test-doc-foo")), (1, b("test-doc-bar"))];
    let turn = task.serve_log(&records, &Position::Beginning);
    assert_eq!(texts(&turn.payload.unwrap()), ["test-doc-foo"]);
    assert!(!turn.has_drained_queue);
}

#[test]
fn dropped_shards_are_reported_before_their_end() {
    let task = FetchStreamTask::new(Position::Beginning, 10, false);
    assert_eq!(
        task.dropped(),
        Some(IngestV2Error::Internal(
            "fetch stream ended before reaching end of shard".to_string()
        ))
    );
}

fn meta(queue_id: &str, first_position: u64, num_records: u32) -> WalBlockMeta {
    WalBlockMeta {
        queue_id: queue_id.to_string(),
        first_position,
        num_records,
        byte_offset: 0,
        byte_len: 0,
    }
}

#[test]
fn logs_are_replayed_to_the_end_of_the_shard() {
    let mut replay = ObjectWalReplay::new(Position::Offset(1));
    assert!(!replay.needs_block(&meta("q", 0, 2), "q"));
    assert!(replay.needs_block(&meta("q", 0, 3), "q"));
    assert!(!replay.needs_block(&meta("other", 0, 3), "q"));
    assert!(matches!(
        replay.add_block(0, &vec![b("a"), b("b"), b("c")], 0),
        BlockStep::Done
    ));
    assert!(matches!(replay.add_block(3, &vec![b("d")], 0), BlockStep::Done));
    let payload = replay.last_payload().unwrap();
    assert_eq!(texts(&payload), ["c", "d"]);
    assert_eq!(payload.from_position_exclusive, Position::Offset(1));
    assert_eq!(payload.to_position_inclusive, Position::Offset(3));
    replay.sent(payload.to_position_inclusive);
    assert!(replay.last_payload().is_none());
    assert_eq!(replay.finish(), Position::Eof(Some(3)));
    assert_eq!(replay.from_position_exclusive(), Position::Eof(Some(3)));
}

#[test]
fn replayed_batches_are_bounded() {
    let mut replay = ObjectWalReplay::new(Position::Beginning);
    let large = Bytes::from(vec![b'x'; 3 * 1024 * 1024]);
    let records = vec![large.clone(), large.clone(), large];
    match replay.add_block(0, &records, 0) {
        BlockStep::Send(payload, next) => {
            assert!(next > 0 && next < 3);
            assert_eq!(payload.mrecord_batch.mrecord_lengths.len(), next);
            assert_eq!(payload.to_position_inclusive, Position::Offset(next as u64 - 1));
            replay.sent(payload.to_position_inclusive);
        }
        BlockStep::Done => panic!("the batch is full"),
    }
}

fn object(wal_id: u64) -> WalObjectRef {
    WalObjectRef { wal_id: WalId(wal_id), num_bytes: 10 }
}

#[test]
fn drains_end_at_the_fence() {
    assert!(matches!(
        drain_end(Ok(Fence { wal_id: WalId(4), epoch: 2 })),
        DrainEnd::Until(WalId(4))
    ));
    assert!(matches!(drain_end(Err(WalError::Fenced)), DrainEnd::Relist));
    assert!(matches!(drain_end(Err(WalError::Closed)), DrainEnd::Failed(WalError::Closed)));
    assert_eq!(relisted_tail(&vec![object(1), object(7)], WalId(3)), WalId(7));
    assert_eq!(relisted_tail(&vec![], WalId(3)), WalId(3));
    let ids: Vec<u64> = scanned_objects(&vec![object(2), object(3)], WalId(4))
        .iter()
        .map(|(wal_id, _)| wal_id.0)
        .collect();
    assert_eq!(ids, [2, 3, 4]);
}

fn storage_failure(kind: StorageErrorKind) -> WalError {
    WalError::Storage(StorageError { kind, message: "gone".to_string() })
}

#[test]
fn collected_objects_are_passed_over() {
    let footer = WalFooter {
        header: WalObjectHeader {
            ingester_id: "node".to_string(),
            epoch: 1,
            generation_id: 0,
            wal_id: WalId(2),
            is_fence: false,
        },
        blocks: vec![meta("q", 0, 1)],
    };
    assert!(matches!(scan_step(Ok(footer.clone())), ScanStep::Scan(read) if read == footer));
    assert!(matches!(
        scan_step(Err(storage_failure(StorageErrorKind::NotFound))),
        ScanStep::Skip
    ));
    assert!(matches!(
        scan_step(Err(storage_failure(StorageErrorKind::Timeout))),
        ScanStep::Fail(error) if error.is_storage_kind(StorageErrorKind::Timeout)
    ));
    assert!(matches!(scan_step(Err(WalError::Closed)), ScanStep::Fail(WalError::Closed)));
}

#[test]
fn failed_drains_resume_where_they_got_to() {
    let mut replay = ObjectWalReplay::new(Position::Beginning);
    replay.add_block(0, &vec![b("a"), b("b")], 0);
    let payload = replay.last_payload().unwrap();
    replay.sent(payload.to_position_inclusive);
    // The next record was read, but not sent, when the log could not be read any further.
    replay.add_block(2, &vec![b("c")], 0);
    let outcome = DrainOutcome::Failed(storage_failure(StorageErrorKind::Timeout));
    let (left, error) = after_drain(&replay, &outcome, "node");
    assert_eq!(left, Position::Offset(1));
    assert_eq!(
        error,
        Some(IngestV2Error::Unavailable(
            "failed to drain shard from the object WAL of ingester `node`: storage error: gone"
                .to_string()
        ))
    );
    assert_eq!(
        after_drain(&replay, &DrainOutcome::ConsumerGone, "node"),
        (Position::Offset(1), None)
    );

    let mut replay = ObjectWalReplay::new(left);
    assert!(!replay.needs_block(&meta("q", 0, 2), "q"));
    assert!(replay.needs_block(&meta("q", 2, 1), "q"));
    replay.add_block(2, &vec![b("c")], 0);
    let payload = replay.last_payload().unwrap();
    assert_eq!(texts(&payload), ["c"]);
    assert_eq!(payload.from_position_exclusive, Position::Offset(1));
    replay.sent(payload.to_position_inclusive);
    assert_eq!(
        after_drain(&replay, &DrainOutcome::Drained, "node"),
        (Position::Eof(Some(2)), None)
    );
}

#[test]
fn absent_ingesters_are_drained_after_the_grace_period() {
    let mut absent_since = None;
    // There is no log to fall back to.
    assert_eq!(choose_source(None, false, &mut absent_since, 0), FetchSource::Ingester);
    assert_eq!(absent_since, None);
    assert_eq!(choose_source(Some(60), true, &mut absent_since, 0), FetchSource::Ingester);
    assert_eq!(choose_source(Some(60), false, &mut absent_since, 100), FetchSource::Ingester);
    assert_eq!(absent_since, Some(100));
    assert_eq!(choose_source(Some(60), false, &mut absent_since, 159), FetchSource::Ingester);
    assert_eq!(choose_source(Some(60), false, &mut absent_since, 160), FetchSource::ObjectWal);
    // It is back.
    assert_eq!(choose_source(Some(60), true, &mut absent_since, 200), FetchSource::Ingester);
    assert_eq!(absent_since, None);
}

#[test]
fn streams_follow_their_events() {
    let mut reached = Position::Beginning;
    assert!(on_stream_event(
        &mut reached,
        StreamEvent::Payload { to_position_inclusive: Position::Offset(3), delivered: true }
    ));
    assert_eq!(reached, Position::Offset(3));
    assert!(on_stream_event(&mut reached, StreamEvent::Empty));
    assert!(!on_stream_event(&mut reached, StreamEvent::Failed));
    assert!(retries(&reached, 1, 2));
    assert!(!retries(&reached, 2, 2));
    assert!(!on_stream_event(&mut reached, StreamEvent::ShardNotFound));
    assert_eq!(reached, Position::Eof(Some(3)));
    assert!(!retries(&reached, 0, 2));
}

#[test]
fn error_messages_name_the_ingester() {
    assert_eq!(
        ingester_unavailable("node"),
        IngestV2Error::Unavailable(
            "ingester `node` is unavailable: closing fetch stream".to_string()
        )
    );
    let error = WalError::Storage(StorageError {
        kind: StorageErrorKind::Timeout,
        message: "slow".to_string(),
    });
    assert_eq!(
        drain_error("node", &error),
        IngestV2Error::Unavailable(
            "failed to drain shard from the object WAL of ingester `node`: storage error: slow"
                .to_string()
        )
    );
}

#[test]
fn shards_are_subscribed_to_once() {
    let mut stream: MultiFetchStream<u32> = MultiFetchStream::new();
    assert_eq!(stream.check_subscribe("q1"), Ok(()));
    stream.subscribed("q1", 1);
    assert_eq!(
        stream.check_subscribe("q1"),
        Err(IngestV2Error::Internal(
            "stream has already subscribed to shard `q1`".to_string()
        ))
    );
    stream.subscribed("q2", 2);
    assert_eq!(stream.unsubscribe("q1"), Some(1));
    assert_eq!(stream.unsubscribe("q1"), None);
    assert_eq!(stream.reset_next(), Some(2));
    assert_eq!(stream.reset_next(), None);
}
