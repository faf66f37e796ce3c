use std::collections::BTreeMap;

use bytes::Bytes;
use quickwit::acks::{ApplyStep, ObjectWalAckApplier, QueuePosition};
use quickwit::gc::{
    assess_footer, finish_pass, gc_block, group_logs, pass_outcome, paths_to_delete, plan_pass,
    shard_status, sources_to_ask, FooterAssessment, GcFooter, GcLog, IngestWalGcParams,
    IngestWalGcReport, ListedObject, QueueKey, ShardPosition, ShardPublishStatus, SourceAnswer,
    SourceKey, SourceStatus,
};
use quickwit::object_wal::{
    lower_bound, objects_to_read, open, positions_fit, LogContents, ObjectWal, OpenedObjectWal,
};
use quickwit::position::{Position, PublishPosition};
use quickwit::wal::fence::{
    claim_written, fence_log, fence_object, tail_found, tail_read, taken_read, Fence, FenceState,
};
use quickwit::wal::format::{
    decode_block, decode_footer, decode_wal_object, encode_fence_object, encode_wal_object,
    WalBlock, WalFooter, WalObjectHeader,
};
use quickwit::wal::reader::{
    deletion_outcome, footer_from_tail, footer_tail_range, list_objects, replay_queue,
    replays_block, FooterStep, ListedPath, QueueBlock, TailSearch, TailStep, WalObjectRef, WalRecord,
};
use quickwit::wal::writer::{
    after_put, disambiguate_existing, durability_reached, encode_frozen, flusher_action,
    Durability, FlusherAction, FlusherWake, PutStep, WalWriterConfig, WriterState,
};
use quickwit::wal::{
    parse_ingester_object_path, wal_dir, wal_object_path, StorageError, StorageErrorKind,
    WalError, WalId, WalResult,
};

/// An object store in memory.
#[derive(Default)]
struct Store {
    objects: BTreeMap<String, Bytes>,
}

fn storage_error(kind: StorageErrorKind) -> StorageError {
    StorageError { kind, message: format!("{kind:?}") }
}

impl Store {
    fn put_if_absent(&mut self, path: String, object: Bytes) -> Result<(), StorageError> {
        if self.objects.contains_key(&path) {
            return Err(storage_error(StorageErrorKind::AlreadyExists));
        }
        self.objects.insert(path, object);
        Ok(())
    }

    fn has(&self, ingester_id: &str, wal_id: WalId) -> bool {
        self.objects.contains_key(&wal_object_path(ingester_id, wal_id))
    }

    fn get(&self, ingester_id: &str, wal_id: WalId) -> WalResult<&Bytes> {
        self.objects
            .get(&wal_object_path(ingester_id, wal_id))
            .ok_or_else(|| WalError::Storage(storage_error(StorageErrorKind::NotFound)))
    }

    fn delete(&mut self, ingester_id: &str, wal_id: WalId) -> WalResult<()> {
        match self.objects.remove(&wal_object_path(ingester_id, wal_id)) {
            Some(_) => deletion_outcome(Ok(())),
            None => deletion_outcome(Err(storage_error(StorageErrorKind::NotFound))),
        }
    }

    fn list(&self, ingester_id: &str) -> Vec<WalObjectRef> {
        let dir = wal_dir(ingester_id);
        let listed = self
            .objects
            .iter()
            .rev()
            .filter(|(path, _)| path.starts_with(&dir))
            .map(|(path, object)| ListedPath {
                path: path.clone(),
                num_bytes: object.len() as u64,
            })
            .collect();
        list_objects(&listed)
    }

    fn ids(&self, ingester_id: &str) -> Vec<u64> {
        self.list(ingester_id).iter().map(|object| object.wal_id.0).collect()
    }

    fn last_wal_id(&self, ingester_id: &str, start_after: WalId) -> WalResult<WalId> {
        let mut search = TailSearch::new(start_after);
        loop {
            match search.next_step(ingester_id) {
                TailStep::Probe(ids) => {
                    let answers = ids.iter().map(|id| Ok(self.has(ingester_id, *id))).collect();
                    search.observe(answers)?;
                }
                TailStep::Found(tail) => return Ok(tail),
                TailStep::GiveUp(error) => return Err(error),
            }
        }
    }

    fn read_footer(&self, ingester_id: &str, wal_id: WalId) -> WalResult<WalFooter> {
        let object = self.get(ingester_id, wal_id)?;
        let num_bytes = object.len() as u64;
        let range = footer_tail_range(ingester_id, wal_id, num_bytes)?;
        match footer_from_tail(num_bytes, &object[range])? {
            FooterStep::Footer(footer) => Ok(footer),
            FooterStep::Fetch(range) => decode_footer(&object[range]),
        }
    }

    fn replay_queue(
        &self,
        ingester_id: &str,
        queue_id: &str,
        from_position_inclusive: u64,
        wal_ids: std::ops::RangeInclusive<u64>,
    ) -> WalResult<Vec<WalRecord>> {
        let mut blocks = Vec::new();
        for wal_id in wal_ids {
            let footer = self.read_footer(ingester_id, WalId(wal_id))?;
            let object = self.get(ingester_id, WalId(wal_id))?;
            for meta in &footer.blocks {
                if replays_block(meta, queue_id, from_position_inclusive) {
                    let records = decode_block(meta, &object[meta.byte_range()])?;
                    blocks.push(QueueBlock { first_position: meta.first_position, records });
                }
            }
        }
        Ok(replay_queue(queue_id, from_position_inclusive, &blocks))
    }

    fn fence(&mut self, ingester_id: &str, generation_id: u64, from: WalId) -> WalResult<Fence> {
        let mut state = fence_log(from);
        loop {
            state = match state {
                FenceState::FindTail(after) => tail_found(self.last_wal_id(ingester_id, after)),
                FenceState::ReadTail(tail) => tail_read(
                    tail,
                    self.read_footer(ingester_id, tail).map(|footer| footer.header.epoch),
                ),
                FenceState::Claim(claim) => {
                    let object = fence_object(ingester_id, generation_id, &claim);
                    let path = wal_object_path(ingester_id, claim.wal_id);
                    claim_written(claim, self.put_if_absent(path, object))
                }
                FenceState::ReadTaken(claim) => taken_read(
                    claim,
                    self.read_footer(ingester_id, claim.wal_id).map(|footer| footer.header.epoch),
                ),
                FenceState::Fenced(fence) => return Ok(fence),
                FenceState::Failed(error) => return Err(error),
            };
        }
    }

    fn flush(&mut self, writer: &mut WriterState, ingester_id: &str, epoch: u64) -> WalResult<()> {
        let target = writer.flush_target()?;
        if let Some(frozen) = writer.freeze(ingester_id, epoch, 0) {
            let encoded = encode_frozen(frozen);
            let path = wal_object_path(ingester_id, encoded.header.wal_id);
            let wal_id = encoded.header.wal_id;
            let put = self.put_if_absent(path, encoded.bytes.clone());
            let written = match after_put(put.err().map(|error| error.kind), 100) {
                PutStep::Written => Ok(()),
                PutStep::Disambiguate => disambiguate_existing(
                    &encoded.header,
                    &self.read_footer(ingester_id, wal_id).unwrap(),
                ),
                PutStep::Retry { .. } => panic!("the store in memory has no other errors"),
            };
            match written {
                Ok(()) => {
                    writer.uploaded(wal_id, encoded.num_bytes, encoded.num_records);
                }
                Err(error) => {
                    writer.uploader_stopped(&error);
                    return Err(error);
                }
            }
        }
        assert!(writer.durable_wal_id >= target);
        Ok(())
    }

    fn open(&mut self, ingester_id: &str) -> WalResult<(OpenedObjectWal, Fence)> {
        let existing = self.list(ingester_id);
        let fence = self.fence(ingester_id, 0, lower_bound(&existing))?;
        let mut contents = LogContents::new();
        for wal_id in objects_to_read(&existing, fence.wal_id) {
            let read = self
                .get(ingester_id, wal_id)
                .and_then(|object| decode_wal_object(&object[..]));
            if let Ok((_, blocks)) = &read {
                assert!(positions_fit(blocks));
            }
            contents.add_object(wal_id, read)?;
        }
        Ok((open(contents, fence.wal_id), fence))
    }

    fn collect(&mut self, wal: &mut ObjectWal, ingester_id: &str) -> usize {
        let collectable = wal.gc.collectable(wal.writer.durable_wal_id);
        for wal_id in &collectable {
            self.delete(ingester_id, *wal_id).unwrap();
            wal.gc.on_deleted(*wal_id);
        }
        collectable.len()
    }
}

fn header(wal_id: u64, epoch: u64) -> WalObjectHeader {
    WalObjectHeader {
        ingester_id: "node".to_string(),
        epoch,
        generation_id: 0,
        wal_id: WalId(wal_id),
        is_fence: false,
    }
}

fn block(queue_id: &str, first_position: u64, num_records: u64) -> WalBlock {
    WalBlock {
        queue_id: queue_id.to_string(),
        first_position,
        records: (0..num_records)
            .map(|i| Bytes::from(format!("{queue_id}:{}", first_position + i)))
            .collect(),
    }
}

fn write_object(store: &mut Store, wal_id: u64, epoch: u64, blocks: &[WalBlock]) {
    let object = encode_wal_object(&header(wal_id, epoch), &blocks.to_vec());
    store.put_if_absent(wal_object_path("node", WalId(wal_id)), object).unwrap();
}

fn records(prefix: &str, num: usize) -> Vec<Bytes> {
    (0..num).map(|i| Bytes::from(format!("{prefix}-{i}"))).collect()
}

fn zeros(num_bytes: usize) -> Vec<Bytes> {
    vec![Bytes::from(vec![0u8; num_bytes])]
}

fn config() -> WalWriterConfig {
    WalWriterConfig { flush_interval_millis: 3_600_000, ..WalWriterConfig::default() }
}

fn positions(records: &[WalRecord]) -> Vec<u64> {
    records.iter().map(|record| record.position).collect()
}

// ---- Reading ----

#[test]
fn logs_are_replayed_from_all_their_data_objects() {
    let mut fence = header(1, 2);
    fence.is_fence = true;
    let reads: Vec<WalResult<(WalObjectHeader, Vec<WalBlock>)>> = vec![
        Ok((fence, vec![block("fenced", 0, 1)])),
        Ok((header(2, 2), vec![block("q2", 0, 2), block("q1", 5, 1)])),
        // Collected since the listing.
        Err(WalError::Storage(storage_error(StorageErrorKind::NotFound))),
        Ok((header(4, 2), vec![block("q1", 6, 1), block("marked", 0, 0)])),
    ];
    let mut contents = LogContents::new();
    for (wal_id, read) in (1..).zip(reads) {
        contents.add_object(WalId(wal_id), read).unwrap();
    }
    assert_eq!(contents.gc.num_live_objects(), 2);
    let failed = contents.add_object(WalId(5), Err(WalError::Closed));
    assert!(matches!(failed, Err(WalError::Closed)));

    let opened = open(contents, WalId(5));
    let replayed: Vec<(&str, u64)> = opened
        .replay
        .iter()
        .map(|record| (record.queue_id.as_str(), record.position))
        .collect();
    assert_eq!(replayed, [("q1", 5), ("q1", 6), ("q2", 0), ("q2", 1)]);
    assert_eq!(opened.queues, ["marked", "q1", "q2"]);
}

#[test]
fn tail_is_found_from_any_lower_bound() {
    assert_eq!(Store::default().last_wal_id("node", WalId(0)), Ok(WalId(0)));
    for tail in [1u64, 2, 3, 7, 8, 9, 100, 257] {
        let mut store = Store::default();
        for wal_id in 1..=tail {
            write_object(&mut store, wal_id, 1, &[]);
        }
        assert_eq!(store.last_wal_id("node", WalId(0)), Ok(WalId(tail)));
        assert_eq!(store.last_wal_id("node", WalId(tail / 2)), Ok(WalId(tail)));
    }

    // Contiguity above the GC boundary: ids 1..=4 collected, 5..=9 live.
    let mut store = Store::default();
    for wal_id in 5..=9 {
        write_object(&mut store, wal_id, 1, &[]);
    }
    assert_eq!(store.last_wal_id("node", WalId(4)), Ok(WalId(9)));
    let listed = store.list("node");
    assert_eq!(listed.len(), 5);
    assert_eq!(listed[0].wal_id, WalId(5));
}

#[test]
fn queues_are_replayed_in_position_order() {
    let mut store = Store::default();
    write_object(&mut store, 1, 1, &[block("q1", 0, 3), block("q2", 0, 1)]);
    write_object(&mut store, 2, 1, &[block("q1", 3, 2)]);
    write_object(&mut store, 3, 1, &[block("q2", 1, 4), block("q1", 5, 1)]);

    let footer = store.read_footer("node", WalId(3)).unwrap();
    assert_eq!(footer.header.wal_id, WalId(3));
    assert_eq!(footer.blocks.len(), 2);

    let replayed = store.replay_queue("node", "q1", 2, 1..=3).unwrap();
    assert_eq!(positions(&replayed), vec![2, 3, 4, 5]);
    assert_eq!(&replayed[0].record[..], b"q1:2");
    assert!(replayed.iter().all(|record| record.queue_id == "q1"));
    let replayed = store.replay_queue("node", "q2", 0, 1..=3).unwrap();
    assert_eq!(positions(&replayed), vec![0, 1, 2, 3, 4]);
    assert!(store.replay_queue("node", "q3", 0, 1..=3).unwrap().is_empty());

    // Objects that hold later positions first.
    write_object(&mut store, 4, 1, &[block("q4", 5, 2)]);
    write_object(&mut store, 5, 1, &[block("q4", 0, 2), block("q4", 3, 1)]);
    let replayed = store.replay_queue("node", "q4", 0, 4..=5).unwrap();
    assert_eq!(positions(&replayed), vec![0, 1, 3, 5, 6]);
    assert_eq!(&replayed[3].record[..], b"q4:5");

    // Missing object in range.
    let error = store.replay_queue("node", "q1", 0, 1..=6).unwrap_err();
    assert!(error.is_storage_kind(StorageErrorKind::NotFound));

    // Deleting what is gone is no error.
    store.delete("node", WalId(1)).unwrap();
    store.delete("node", WalId(1)).unwrap();
    assert!(!store.has("node", WalId(1)));
}

#[test]
fn footers_larger_than_the_first_read_are_fetched_whole() {
    let mut store = Store::default();
    let blocks: Vec<WalBlock> =
        (0..1000).map(|i| block(&format!("index/source/{i:020}"), 0, 1)).collect();
    write_object(&mut store, 1, 1, &blocks);
    let object = store.get("node", WalId(1)).unwrap();
    let num_bytes = object.len() as u64;
    let range = footer_tail_range("node", WalId(1), num_bytes).unwrap();
    assert!(matches!(
        footer_from_tail(num_bytes, &object[range]),
        Ok(FooterStep::Fetch(_))
    ));
    assert_eq!(store.read_footer("node", WalId(1)).unwrap().blocks.len(), 1000);
}

#[test]
fn large_objects_are_encoded_in_parallel_to_the_same_bytes() {
    let big: Vec<WalBlock> = (0..8)
        .map(|i| WalBlock {
            queue_id: format!("q{i}"),
            first_position: i,
            records: (0..40u8).map(|j| Bytes::from(vec![j; 9_000])).collect(),
        })
        .collect();
    let object = encode_wal_object(&header(1, 1), &big);
    let (decoded_header, decoded) = decode_wal_object(&object).unwrap();
    assert_eq!(decoded_header, header(1, 1));
    assert_eq!(decoded, big);
}

// ---- Fencing ----

#[test]
fn fencing_an_empty_log_claims_epoch_1() {
    let mut store = Store::default();
    assert_eq!(
        store.fence("node", 42, WalId(0)),
        Ok(Fence { wal_id: WalId(1), epoch: 1 })
    );
    let footer = store.read_footer("node", WalId(1)).unwrap();
    assert!(footer.header.is_fence);
    assert_eq!(footer.header.epoch, 1);
    assert_eq!(footer.header.generation_id, 42);
}

#[test]
fn epochs_increase_with_each_fence() {
    let mut store = Store::default();
    let first = store.fence("node", 0, WalId(0)).unwrap();
    write_object(&mut store, 2, first.epoch, &[]);
    write_object(&mut store, 3, first.epoch, &[]);
    assert_eq!(
        store.fence("node", 0, WalId(0)),
        Ok(Fence { wal_id: WalId(4), epoch: 2 })
    );
    assert_eq!(
        store.fence("node", 0, WalId(3)),
        Ok(Fence { wal_id: WalId(5), epoch: 3 })
    );
    // The writer of epoch 1 tries to write its next object: it must fail.
    let stale = encode_fence_object("node", first.epoch, 0, WalId(5));
    let error = store
        .put_if_absent(wal_object_path("node", WalId(5)), stale)
        .unwrap_err();
    assert_eq!(error.kind, StorageErrorKind::AlreadyExists);
}

#[test]
fn sequential_fencers_each_take_over() {
    let mut store = Store::default();
    write_object(&mut store, 1, 1, &[]);
    for i in 0..4u64 {
        assert_eq!(
            store.fence("node", i, WalId(0)),
            Ok(Fence { wal_id: WalId(2 + i), epoch: 2 + i })
        );
    }
}

#[test]
fn concurrent_fencers_lose_to_the_first_claim() {
    // Two fencers see the same tail; the second one's claim is refused by the store.
    let claim = Fence { wal_id: WalId(2), epoch: 2 };
    let refused = claim_written(claim, Err(storage_error(StorageErrorKind::AlreadyExists)));
    assert!(matches!(refused, FenceState::ReadTaken(taken) if taken == claim));
    // The object in its place is another fencer's: this fencer has lost.
    assert!(matches!(
        taken_read(claim, Ok(2)),
        FenceState::Failed(WalError::Fenced)
    ));
    // It is a live writer's of the epoch before: the fencer moves up.
    assert!(matches!(taken_read(claim, Ok(1)), FenceState::Claim(_) | FenceState::FindTail(_)));
}

// ---- Writing ----

#[test]
fn appends_group_into_objects() {
    let mut store = Store::default();
    let mut writer = WriterState::new(WalId(1));
    assert_eq!(writer.append(&config(), "q1", 0, records("a", 3)).unwrap().0, WalId(1));
    assert_eq!(writer.append(&config(), "q2", 0, records("b", 1)).unwrap().0, WalId(1));
    assert_eq!(writer.append(&config(), "q1", 3, records("c", 2)).unwrap().0, WalId(1));
    assert_eq!(writer.status().buffered_num_records, 6);

    store.flush(&mut writer, "node", 1).unwrap();
    assert_eq!(writer.status().durable_wal_id, WalId(1));
    assert_eq!(writer.status().buffered_num_bytes, 0);

    // Next append goes to object 2.
    assert_eq!(writer.append(&config(), "q1", 5, records("d", 1)).unwrap().0, WalId(2));
    assert!(matches!(
        durability_reached(&Durability::Flushed(WalId(1)), WalId(1)),
        Some(Ok(()))
    ));
    assert!(durability_reached(&Durability::Flushed(WalId(1)), WalId(2)).is_none());
    store.flush(&mut writer, "node", 1).unwrap();

    let (header, blocks) = decode_wal_object(store.get("node", WalId(1)).unwrap()).unwrap();
    assert_eq!(header.epoch, 1);
    assert_eq!(blocks.len(), 2);
    assert_eq!(blocks[0].queue_id, "q1");
    assert_eq!(blocks[0].records.len(), 5);
    let replayed = store.replay_queue("node", "q1", 2, 1..=2).unwrap();
    assert_eq!(positions(&replayed), vec![2, 3, 4, 5]);

    writer.close(&WalError::Closed);
    assert!(matches!(
        writer.append(&config(), "q1", 6, records("e", 1)),
        Err(WalError::Closed)
    ));
}

#[test]
fn many_appends_make_one_object() {
    let mut store = Store::default();
    let mut writer = WriterState::new(WalId(1));
    for i in 0..100u64 {
        assert_eq!(writer.append(&config(), "q", i, records("r", 1)).unwrap().0, WalId(1));
    }
    store.flush(&mut writer, "node", 1).unwrap();
    assert_eq!(store.list("node").len(), 1);
}

#[test]
fn size_threshold_asks_for_a_flush() {
    let mut cfg = config();
    cfg.flush_num_bytes = 100;
    let mut writer = WriterState::new(WalId(1));
    assert!(!writer.append(&cfg, "q", 0, zeros(60)).unwrap().1);
    assert!(writer.append(&cfg, "q", 1, zeros(200)).unwrap().1);
}

#[test]
fn full_buffers_push_back() {
    let mut store = Store::default();
    let mut cfg = config();
    cfg.max_buffered_num_bytes = 100;
    cfg.flush_num_bytes = 1024 * 1024;
    let mut writer = WriterState::new(WalId(1));
    writer.append(&cfg, "q", 0, zeros(60)).unwrap();
    assert!(matches!(
        writer.append(&cfg, "q", 1, zeros(60)),
        Err(WalError::BufferFull)
    ));
    store.flush(&mut writer, "node", 1).unwrap();
    writer.append(&cfg, "q", 1, zeros(60)).unwrap();
}

#[test]
fn fenced_writers_fail_and_reject_appends() {
    let mut store = Store::default();
    let mut writer = WriterState::new(WalId(1));
    writer.append(&config(), "q", 0, records("a", 1)).unwrap();
    // A newer owner fences the log at the slot we are about to write.
    let fence = encode_fence_object("node", 2, 0, WalId(1));
    store.put_if_absent(wal_object_path("node", WalId(1)), fence).unwrap();

    assert_eq!(store.flush(&mut writer, "node", 1), Err(WalError::Fenced));
    assert!(matches!(
        durability_reached(&Durability::Failed(WalError::Fenced), WalId(1)),
        Some(Err(WalError::Fenced))
    ));
    assert!(matches!(
        writer.append(&config(), "q", 1, records("b", 1)),
        Err(WalError::Fenced)
    ));
    assert!(matches!(writer.status().closed_reason, Some(WalError::Fenced)));
    // The fence is intact.
    let footer = store.read_footer("node", WalId(1)).unwrap();
    assert!(footer.header.is_fence);
    assert_eq!(footer.header.epoch, 2);
}

#[test]
fn our_own_object_in_place_is_success() {
    // A PUT that landed but whose response was lost.
    let mut store = Store::default();
    write_object(&mut store, 1, 1, &[block("q", 0, 1)]);
    let mut writer = WriterState::new(WalId(1));
    writer.append(&config(), "q", 0, records("a", 1)).unwrap();
    store.flush(&mut writer, "node", 1).unwrap();
    assert_eq!(writer.status().durable_wal_id, WalId(1));
}

#[test]
fn writer_after_fence_continues_from_the_next_id() {
    let mut store = Store::default();
    let mut old = WriterState::new(WalId(1));
    old.append(&config(), "q", 0, records("a", 2)).unwrap();
    store.flush(&mut old, "node", 1).unwrap();
    old.append(&config(), "q", 2, records("b", 1)).unwrap();
    store.flush(&mut old, "node", 1).unwrap();
    // One more that is never flushed before being fenced.
    old.append(&config(), "q", 3, records("c", 1)).unwrap();

    let fence = store.fence("node", 0, WalId(0)).unwrap();
    assert_eq!(fence, Fence { wal_id: WalId(3), epoch: 2 });
    assert_eq!(store.replay_queue("node", "q", 0, 1..=3).unwrap().len(), 3);
    assert_eq!(store.flush(&mut old, "node", 1), Err(WalError::Fenced));

    let mut new = WriterState::new(fence.wal_id.next());
    assert_eq!(new.append(&config(), "q", 3, records("c", 1)).unwrap().0, WalId(4));
    store.flush(&mut new, "node", fence.epoch).unwrap();
    assert_eq!(store.replay_queue("node", "q", 0, 1..=4).unwrap().len(), 4);
}

#[test]
fn puts_are_retried_with_growing_waits() {
    let mut waits = Vec::new();
    let mut backoff: u64 = 100;
    for _ in 0..8 {
        match after_put(Some(StorageErrorKind::Timeout), backoff) {
            PutStep::Retry { wait_millis, next_backoff_millis } => {
                waits.push(wait_millis);
                backoff = next_backoff_millis;
            }
            other => panic!("{other:?}"),
        }
    }
    assert_eq!(&waits[..3], [100, 200, 400]);
    assert!(waits.windows(2).all(|pair| pair[0] <= pair[1]));
    assert_eq!(waits[6], waits[7]);
    assert_eq!(after_put(None, 100), PutStep::Written);
    assert_eq!(
        after_put(Some(StorageErrorKind::AlreadyExists), 100),
        PutStep::Disambiguate
    );
}

#[test]
fn flushers_stop_when_the_writer_is_closed() {
    assert_eq!(flusher_action(FlusherWake::Flush, false), FlusherAction::Flush);
    assert_eq!(flusher_action(FlusherWake::Flush, true), FlusherAction::Stop);
    assert_eq!(
        flusher_action(FlusherWake::Shutdown, false),
        FlusherAction::FlushAndClose
    );
}

#[test]
fn error_texts() {
    assert_eq!(WalError::Fenced.to_text(), "WAL writer was fenced");
    assert_eq!(WalError::BufferFull.to_text(), "WAL buffer is full");
    assert_eq!(WalError::Closed.to_text(), "WAL writer is closed");
    assert_eq!(
        WalError::Corrupted("bad magic".to_string()).to_text(),
        "WAL object is corrupted: bad magic"
    );
    assert_eq!(
        WalError::Storage(storage_error(StorageErrorKind::Io)).to_text(),
        "storage error: Io"
    );
}

// ---- An ingester's own log ----

#[test]
fn objects_are_collected_once_nothing_in_them_is_live() {
    let mut store = Store::default();
    let (opened, fence) = store.open("node").unwrap();
    assert!(opened.replay.is_empty());
    let mut wal = opened.object_wal;
    let id1 = wal.append(&config(), "idx/src/1", 0, records("a", 3)).unwrap().0;
    wal.append(&config(), "idx/src/2", 0, records("b", 1)).unwrap();
    store.flush(&mut wal.writer, "node", fence.epoch).unwrap();
    let id2 = wal.append(&config(), "idx/src/1", 3, records("c", 2)).unwrap().0;
    store.flush(&mut wal.writer, "node", fence.epoch).unwrap();
    assert_ne!(id1, id2);
    assert_eq!(wal.gc.num_live_objects(), 2);

    // Nothing truncated: nothing collectable.
    assert_eq!(store.collect(&mut wal, "node"), 0);
    // The first queue is truncated past object 1, but the second still pins it.
    wal.gc.on_truncate("idx/src/1", 2);
    assert_eq!(store.collect(&mut wal, "node"), 0);
    wal.gc.on_truncate("idx/src/2", 0);
    assert_eq!(store.collect(&mut wal, "node"), 1);
    assert_eq!(wal.gc.num_live_objects(), 1);
    // Deleting the first queue releases object 2.
    wal.gc.on_delete_queue("idx/src/1");
    assert_eq!(store.collect(&mut wal, "node"), 1);
    assert_eq!(wal.gc.num_live_objects(), 0);

    // Only the fence remains.
    assert_eq!(store.ids("node"), [1]);
    assert!(store.read_footer("node", WalId(1)).unwrap().header.is_fence);
}

#[test]
fn reopening_replays_and_fences_the_previous_incarnation() {
    let mut store = Store::default();
    let (first, first_fence) = store.open("node").unwrap();
    let mut first = first.object_wal;
    first.append(&config(), "idx/src/1", 0, records("a", 2)).unwrap();
    store.flush(&mut first.writer, "node", first_fence.epoch).unwrap();
    first.append(&config(), "idx/src/1", 2, records("b", 1)).unwrap();
    store.flush(&mut first.writer, "node", first_fence.epoch).unwrap();
    // Buffered but never flushed: must not be replayed.
    first.append(&config(), "idx/src/1", 3, records("lost", 1)).unwrap();

    let (reopened, fence) = store.open("node").unwrap();
    assert_eq!(first_fence.epoch, 1);
    assert_eq!(fence.epoch, 2);
    assert_eq!(positions(&reopened.replay), vec![0, 1, 2]);
    assert_eq!(&reopened.replay[2].record[..], b"b-0");
    assert_eq!(reopened.object_wal.gc.num_live_objects(), 2);

    // The zombie is fenced on its next flush.
    assert_eq!(
        store.flush(&mut first.writer, "node", first_fence.epoch),
        Err(WalError::Fenced)
    );

    let mut second = reopened.object_wal;
    second.append(&config(), "idx/src/1", 3, records("c", 1)).unwrap();
    store.flush(&mut second.writer, "node", fence.epoch).unwrap();
    let tail = store.last_wal_id("node", WalId(0)).unwrap();
    assert_eq!(store.replay_queue("node", "idx/src/1", 0, 1..=tail.0).unwrap().len(), 4);

    // Truncating everything then collecting leaves only fences.
    second.gc.on_truncate("idx/src/1", 3);
    assert_eq!(store.collect(&mut second, "node"), 3);
}

#[test]
fn marked_objects_stay_until_the_queue_is_deleted() {
    let mut store = Store::default();
    let (opened, fence) = store.open("node").unwrap();
    let mut wal = opened.object_wal;
    assert_eq!(wal.writer.status().buffered_num_records, 0);
    wal.append(&config(), "q", 0, records("r", 1)).unwrap();
    wal.append_queue_marker("q").unwrap();
    store.flush(&mut wal.writer, "node", fence.epoch).unwrap();
    wal.gc.on_truncate("q", 0);
    assert_eq!(store.collect(&mut wal, "node"), 0);
    assert_eq!(wal.gc.num_live_objects(), 1);
    wal.gc.on_delete_queue("q");
    assert_eq!(store.collect(&mut wal, "node"), 1);
}

#[test]
fn one_of_many_fencers_wins() {
    let claim = Fence { wal_id: WalId(1), epoch: 1 };
    let mut store = Store::default();
    let mut num_winners = 0;
    for _ in 0..5 {
        let object = fence_object("node", 0, &claim);
        let path = wal_object_path("node", claim.wal_id);
        match claim_written(claim, store.put_if_absent(path, object)) {
            FenceState::Fenced(_) => num_winners += 1,
            FenceState::ReadTaken(claim) => {
                let found = store.read_footer("node", claim.wal_id).unwrap().header.epoch;
                assert!(matches!(
                    taken_read(claim, Ok(found)),
                    FenceState::Failed(WalError::Fenced)
                ));
            }
            _ => panic!("unexpected state"),
        }
    }
    assert_eq!(num_winners, 1);
}

#[test]
fn tails_are_found_with_few_requests() {
    for tail in [0u64, 1, 7, 255, 256, 1 << 20, (1 << 40) + 12345] {
        let mut search = TailSearch::new(WalId(0));
        let mut num_requests = 0;
        let found = loop {
            match search.next_step("node") {
                TailStep::Probe(ids) => {
                    num_requests += ids.len();
                    search.observe(ids.iter().map(|id| Ok(id.0 <= tail)).collect()).unwrap();
                }
                TailStep::Found(found) => break found,
                TailStep::GiveUp(error) => panic!("{error:?}"),
            }
        };
        assert_eq!(found, WalId(tail));
        assert!(num_requests <= 2 * (64 - tail.leading_zeros() as usize) + 8);
    }
}

#[test]
fn markers_make_queues_known() {
    let mut store = Store::default();
    let (opened, fence) = store.open("node").unwrap();
    let mut wal = opened.object_wal;
    wal.append_queue_marker("idx/src/9").unwrap();
    store.flush(&mut wal.writer, "node", fence.epoch).unwrap();
    let (reopened, _) = store.open("node").unwrap();
    assert!(reopened.replay.is_empty());
    assert_eq!(reopened.queues, ["idx/src/9"]);
}

#[test]
fn replay_is_sorted_by_queue_and_position() {
    let mut store = Store::default();
    write_object(&mut store, 1, 1, &[block("b", 0, 2), block("a", 5, 2)]);
    write_object(&mut store, 2, 1, &[block("a", 7, 1), block("b", 2, 1)]);
    let (opened, _) = store.open("node").unwrap();
    let replayed: Vec<(&str, u64)> = opened
        .replay
        .iter()
        .map(|record| (record.queue_id.as_str(), record.position))
        .collect();
    assert_eq!(replayed, [("a", 5), ("a", 6), ("a", 7), ("b", 0), ("b", 1), ("b", 2)]);
}

#[test]
fn positions_are_applied_when_their_object_is_durable() {
    let position = |queue_id: &str, offset| QueuePosition {
        queue_id: queue_id.to_string(),
        position: Position::Offset(offset),
    };
    let mut applier = ObjectWalAckApplier::new();
    applier.record(WalId(1), vec![position("q1", 4)]);
    applier.record(WalId(2), vec![position("q1", 6), position("q2", 0)]);
    applier.record(WalId(3), vec![position("q1", 9)]);
    match applier.on_durability(Durability::Flushed(WalId(2))) {
        ApplyStep::Apply(applied, Durability::Flushed(WalId(2))) => {
            let offsets: Vec<(&str, Position)> = applied
                .iter()
                .map(|applied| (applied.queue_id.as_str(), applied.position))
                .collect();
            assert_eq!(
                offsets,
                [
                    ("q1", Position::Offset(4)),
                    ("q1", Position::Offset(6)),
                    ("q2", Position::Offset(0))
                ]
            );
        }
        _ => panic!("positions are to be applied"),
    }
    assert!(matches!(
        applier.on_durability(Durability::Failed(WalError::Fenced)),
        ApplyStep::Stop(Durability::Failed(WalError::Fenced))
    ));
}

// ---- Cluster-wide garbage collection ----

fn key(shard_id: &str) -> Option<QueueKey> {
    Some(QueueKey {
        index_uid: "idx:0".to_string(),
        source_id: "src".to_string(),
        shard_id: shard_id.to_string(),
    })
}

fn queue_key(queue_id: &str) -> Option<QueueKey> {
    queue_id.strip_prefix("idx:0/src/").and_then(key)
}

fn write_log(store: &mut Store, ingester_id: &str, appends: &[(&str, u64, usize)]) {
    let fence = store.fence(ingester_id, 0, WalId(0)).unwrap();
    let mut writer = WriterState::new(fence.wal_id.next());
    for (queue_id, first_position, num_records) in appends {
        writer
            .append(&config(), queue_id, *first_position, records(queue_id, *num_records))
            .unwrap();
        store.flush(&mut writer, ingester_id, fence.epoch).unwrap();
    }
}

fn assessed_logs(store: &Store) -> Vec<GcLog> {
    let listed = store
        .objects
        .iter()
        .map(|(path, object)| ListedObject {
            path: path.clone(),
            num_bytes: object.len() as u64,
            last_modified_nanos: 0,
        })
        .collect();
    let mut logs = group_logs(listed);
    for log in &mut logs {
        for object in &mut log.objects {
            let read = store.read_footer(&log.ingester_id, object.wal_id);
            if let FooterAssessment::Known(footer) = assess_footer(read) {
                object.footer = Some(GcFooter {
                    is_fence: footer.header.is_fence,
                    blocks: footer
                        .blocks
                        .iter()
                        .map(|meta| gc_block(meta, queue_key(&meta.queue_id)))
                        .collect(),
                });
            }
        }
    }
    logs
}

fn run_pass(
    store: &mut Store,
    answer: impl Fn() -> SourceAnswer,
    params: &IngestWalGcParams,
    now_nanos: u128,
) -> IngestWalGcReport {
    let logs = assessed_logs(store);
    let mut asked = Vec::new();
    for log in &logs {
        for object in &log.objects {
            if let Some(footer) = &object.footer {
                sources_to_ask(&mut asked, footer);
            }
        }
    }
    let sources = asked
        .into_iter()
        .map(|source| SourceStatus { source, answer: answer() })
        .collect();
    let plan = plan_pass(&logs, &sources, params, now_nanos, 0);
    let paths = paths_to_delete(&plan, params);
    for path in &paths {
        store.objects.remove(path).unwrap();
    }
    let (report, gone) = finish_pass(&plan, &pass_outcome(params, Ok(())), &logs, &vec![]);
    assert_eq!(gone, paths);
    assert_eq!(report.num_failed_deletions, 0);
    report
}

fn shards(positions: &[(&str, Position)]) -> SourceAnswer {
    SourceAnswer::Shards(
        positions
            .iter()
            .map(|(shard_id, position)| ShardPosition {
                shard_id: shard_id.to_string(),
                position: PublishPosition::At(*position),
            })
            .collect(),
    )
}

const HOUR: u128 = 3_600_000_000_000;

#[test]
fn gc_deletes_published_objects_and_old_fences() {
    let mut store = Store::default();
    let (q1, q2) = ("idx:0/src/1", "idx:0/src/2");
    // Fence 1, object 2 {q1: 0..=2}, object 3 {q2: 0..=0}, object 4 {q1: 3..=4}, fence 5.
    write_log(&mut store, "A", &[(q1, 0, 3), (q2, 0, 1), (q1, 3, 2)]);
    store.fence("A", 0, WalId(0)).unwrap();
    assert_eq!(store.ids("A"), [1, 2, 3, 4, 5]);
    let params = IngestWalGcParams { min_age_nanos: 0, dry_run: false };

    let published = || shards(&[("1", Position::Offset(2)), ("2", Position::Beginning)]);
    let report = run_pass(&mut store, published, &params, HOUR);
    assert_eq!(report.num_deleted_objects, 2);
    assert_eq!(report.num_skipped_objects, 0);
    assert_eq!(store.ids("A"), [3, 4, 5]);

    // The first shard reaches its end, the second is deleted from the metastore.
    let report = run_pass(&mut store, || shards(&[("1", Position::Eof(Some(4)))]), &params, HOUR);
    assert_eq!(report.num_deleted_objects, 2);
    assert_eq!(store.ids("A"), [5]);

    // Index gone entirely: only the newest fence survives, forever.
    let report = run_pass(&mut store, || SourceAnswer::Gone, &params, HOUR);
    assert_eq!(report.num_deleted_objects, 0);
    assert_eq!(store.ids("A"), [5]);
}

#[test]
fn gc_respects_min_age_dry_run_and_metastore_errors() {
    let mut store = Store::default();
    write_log(&mut store, "A", &[("idx:0/src/1", 0, 1)]);
    write_log(&mut store, "B", &[("idx:0/src/1", 1, 1)]);

    // Too young.
    let params = IngestWalGcParams { min_age_nanos: 60_000_000_000, dry_run: false };
    let report = run_pass(&mut store, || SourceAnswer::Gone, &params, 0);
    assert_eq!(report.num_logs, 2);
    assert_eq!(report.num_objects, 4);
    assert_eq!(report.num_deleted_objects, 0);

    // Dry run: reports, deletes nothing.
    let params = IngestWalGcParams { min_age_nanos: 0, dry_run: true };
    let report = run_pass(&mut store, || SourceAnswer::Gone, &params, HOUR);
    assert_eq!(report.num_deleted_objects, 2);
    assert_eq!(store.ids("A").len(), 2);

    // Metastore error: data objects are kept and counted as skipped.
    let params = IngestWalGcParams { min_age_nanos: 0, dry_run: false };
    let report = run_pass(&mut store, || SourceAnswer::Failed, &params, HOUR);
    assert_eq!(report.num_deleted_objects, 0);
    assert_eq!(report.num_skipped_objects, 2);
    assert_eq!(store.ids("A").len(), 2);
}

#[test]
fn failed_deletions_are_counted() {
    let mut store = Store::default();
    write_log(&mut store, "A", &[("idx:0/src/1", 0, 1), ("idx:0/src/1", 1, 1)]);
    let logs = assessed_logs(&store);
    let sources = vec![SourceStatus {
        source: SourceKey { index_uid: "idx:0".to_string(), source_id: "src".to_string() },
        answer: SourceAnswer::Gone,
    }];
    assert_eq!(shard_status(&sources, &key("1")), Some(ShardPublishStatus::Gone));
    assert_eq!(shard_status(&sources, &None), None);
    let params = IngestWalGcParams { min_age_nanos: 0, dry_run: false };
    let plan = plan_pass(&logs, &sources, &params, HOUR, 1);
    assert_eq!(plan.deletions.len(), 2);
    let failed = plan.deletions[0].path.clone();
    let dry_run = IngestWalGcParams { min_age_nanos: 0, dry_run: true };
    assert!(paths_to_delete(&plan, &dry_run).is_empty());
    let (dry_report, gone) = finish_pass(&plan, &pass_outcome(&dry_run, Ok(())), &logs, &vec![]);
    assert!(gone.is_empty());
    assert_eq!(dry_report.num_deleted_objects, 2);
    assert_eq!(dry_report.num_failed_deletions, 0);
    // The cache forgets what this pass deleted, and what is not listed any more.
    let cached = vec![
        failed.clone(),
        plan.deletions[1].path.clone(),
        "node/wal/00000000000000000099.wal".to_string(),
    ];
    assert_eq!(paths_to_delete(&plan, &params), cached[..2]);
    let outcome = pass_outcome(&params, Err(vec![failed]));
    let (report, gone) = finish_pass(&plan, &outcome, &logs, &cached);
    assert_eq!(report.num_deleted_objects, 1);
    assert_eq!(report.num_failed_deletions, 1);
    assert_eq!(report.num_skipped_objects, 1);
    assert_eq!(report.num_deleted_bytes, plan.deletions[1].num_bytes);
    assert_eq!(gone, cached[1..]);
}

#[test]
fn published_positions_cover_what_lies_before_them() {
    let published = ShardPublishStatus::Published(PublishPosition::At(Position::Offset(4)));
    assert!(published.covers(Some(4)));
    assert!(!published.covers(Some(5)));
    assert!(ShardPublishStatus::Gone.covers(Some(5)));
    let closed = ShardPublishStatus::Published(PublishPosition::At(Position::Eof(Some(4))));
    assert!(closed.covers(Some(4)));
    // An offset that is no number covers nothing.
    let unknown = ShardPublishStatus::Published(PublishPosition::NotANumber);
    assert!(!unknown.covers(Some(0)));
    assert!(!unknown.covers(None));
}

#[test]
fn object_paths_name_their_ingester() {
    let path = wal_object_path("node-1", WalId(7));
    assert_eq!(path, "node-1/wal/00000000000000000007.wal");
    assert_eq!(
        parse_ingester_object_path(&path),
        Some(("node-1".to_string(), WalId(7)))
    );
    assert_eq!(parse_ingester_object_path("node-1/7.wal"), None);
    assert_eq!(
        parse_ingester_object_path("node-1/wal/x/00000000000000000042.wal"),
        None
    );
    assert_eq!(parse_ingester_object_path("/wal/00000000000000000042.wal"), None);
}
