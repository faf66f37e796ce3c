//! Fetch streams: serving the records of a shard to an indexer, and draining a shard whose ingester
//! is gone from the object-store log.

use bytes::Bytes;
use vstd::prelude::*;

#[allow(unused_imports)]
use crate::buffer;
use crate::buffer::{add_to_batch, bytes_as_slice, bytes_from_vec};
#[allow(unused_imports)]
use crate::mem_queue;
use crate::mem_queue::{MemQueue, PositionBound, QueueModel};
use crate::position::Position;
use crate::text_map::TextMap;
use crate::wal::fence::Fence;
use crate::wal::format::{WalBlockMeta, WalFooter};
use crate::wal::reader::{replays_block, WalObjectRef};
#[allow(unused_imports)]
use crate::wal::reader;
use crate::wal::{StorageErrorKind, WalError, WalId, WalResult};
#[allow(unused_imports)]
use crate::{object_wal, wal};

verus! {

/// Errors of the ingest service.
#[derive(Clone, Debug, PartialEq, Eq)]
pub enum IngestV2Error {
    Internal(String),
    Unavailable(String),
    ShardNotFound(String),
}

/// Records as they are sent: their bytes one behind the other, and their lengths.
#[derive(Debug)]
pub struct MRecordBatch {
    pub mrecord_buffer: Bytes,
    pub mrecord_lengths: Vec<u32>,
}

/// Records of a shard, and the range of positions they take a consumer through.
#[derive(Debug)]
pub struct FetchPayload {
    pub mrecord_batch: MRecordBatch,
    pub from_position_exclusive: Position,
    pub to_position_inclusive: Position,
}

impl FetchPayload {
    /// Whether the payload holds records.
    pub open spec fn holds(self, records: Seq<Seq<u8>>) -> bool {
        &&& buffer::bytes_content(self.mrecord_batch.mrecord_buffer) == buffer::joined(records)
        &&& self.mrecord_batch.mrecord_lengths@ == buffer::sent_lengths(records)
    }
}

// ---- Serving a shard ----

/// Serves the records of a shard from a position on, in batches.
pub struct FetchStreamTask {
    /// The position of the next record fetched.
    pub from_position_inclusive: u64,
    /// The position that the consumer has reached.
    pub to_position_inclusive: Position,
    pub batch_num_bytes: usize,
    /// Only serve records up to the shard's replication position, which the ingester advances once
    /// records are durable in the object-store log. Without this bound, an indexer could read (and
    /// publish) records that a crash would erase from the log.
    pub bound_by_replication_position: bool,
}

/// What a turn of a fetch task gives.
pub struct FetchTurn {
    /// What to send, if anything.
    pub payload: Option<FetchPayload>,
    /// Whether nothing more is there to be served for now.
    pub has_drained_queue: bool,
}

/// The records of a list of positioned records.
pub open spec fn records_of(pairs: Seq<(int, Seq<u8>)>) -> Seq<Seq<u8>> {
    Seq::new(pairs.len(), |i: int| pairs[i].1)
}

/// Whether the record at an index still fits a batch: something always fits an empty one.
pub open spec fn fits_batch(records: Seq<Seq<u8>>, cap: int, i: int) -> bool {
    buffer::total_len(records.take(i)) == 0 || buffer::total_len(records.take(i)) + records[i].len()
        <= cap
}

/// How many records from an index on fit a batch, counted with those before it.
pub open spec fn batch_count(records: Seq<Seq<u8>>, cap: int, i: nat) -> nat
    decreases records.len() - i,
{
    if i >= records.len() || !fits_batch(records, cap, i as int) {
        i
    } else {
        batch_count(records, cap, i + 1)
    }
}

impl FetchStreamTask {
    /// The position that the consumer has reached is right before the next record.
    pub open spec fn well_formed(self) -> bool {
        self.to_position_inclusive == Position::before(self.from_position_inclusive)
    }

    /// The positions that may be served: from the next one up to, not including, the second number.
    pub open spec fn readable(self, replication_position: Position) -> (int, int) {
        let end = if self.bound_by_replication_position {
            replication_position.next_offset()
        } else {
            u64::MAX as int
        };
        (
            self.from_position_inclusive as int,
            if end > self.from_position_inclusive {
                end
            } else {
                self.from_position_inclusive as int
            },
        )
    }

    /// The records of a queue at the positions that may be served.
    pub open spec fn readable_of(
        self,
        queue: QueueModel,
        replication_position: Position,
    ) -> Seq<(int, Seq<u8>)> {
        let (start, end) = self.readable(replication_position);
        queue.between(start, end)
    }

    /// Whether records are at positions that may be served.
    pub open spec fn may_serve(
        self,
        pairs: Seq<(int, Seq<u8>)>,
        replication_position: Position,
    ) -> bool {
        let (start, end) = self.readable(replication_position);
        forall|i: int| 0 <= i < pairs.len() ==> start <= (#[trigger] pairs[i]).0 < end
    }

    /// Whether a turn moved the task on by sending records: to the position behind the last one.
    pub open spec fn moved_by(
        self,
        before: FetchStreamTask,
        pairs: Seq<(int, Seq<u8>)>,
        payload: Option<FetchPayload>,
    ) -> bool {
        &&& self.batch_num_bytes == before.batch_num_bytes
        &&& self.bound_by_replication_position == before.bound_by_replication_position
        &&& match payload {
            None => pairs.len() == 0 && self == before,
            Some(payload) => pairs.len() > 0 && payload.holds(records_of(pairs))
                && self.from_position_inclusive == pairs.last().0 + 1
                && payload.from_position_exclusive == before.to_position_inclusive
                && payload.to_position_inclusive == self.to_position_inclusive,
        }
    }

    pub fn new(
        from_position_exclusive: Position,
        batch_num_bytes: usize,
        bound_by_replication_position: bool,
    ) -> (task: Self)
        requires
            from_position_exclusive.next_offset() <= u64::MAX,
        ensures
            task.well_formed(),
            task.from_position_inclusive == from_position_exclusive.next_offset(),
            task.batch_num_bytes == batch_num_bytes,
            task.bound_by_replication_position == bound_by_replication_position,
    {
        let from_position_inclusive: u64 = match from_position_exclusive.as_u64() {
            Some(offset) => offset + 1,
            None => 0,
        };
        FetchStreamTask {
            from_position_inclusive,
            to_position_inclusive: Position::before_offset(from_position_inclusive),
            batch_num_bytes,
            bound_by_replication_position,
        }
    }

    /// The positions that may be served: from the first number up to, not including, the second.
    /// The log of the shard is read over these.
    pub fn readable_range(&self, replication_position: &Position) -> (range: (u64, u64))
        requires
            replication_position.next_offset() <= u64::MAX,
        ensures
            (range.0 as int, range.1 as int) == self.readable(*replication_position),
    {
        let end: u64 = if self.bound_by_replication_position {
            match replication_position.as_u64() {
                Some(offset) => offset + 1,
                None => 0,
            }
        } else {
            u64::MAX
        };
        let start: u64 = self.from_position_inclusive;
        if end > start {
            (start, end)
        } else {
            (start, start)
        }
    }

    fn send(
        &mut self,
        mrecord_buffer: Vec<u8>,
        mrecord_lengths: Vec<u32>,
        last_position: u64,
        Ghost(pairs): Ghost<Seq<(int, Seq<u8>)>>,
    ) -> (payload: Option<FetchPayload>)
        requires
            old(self).well_formed(),
            mrecord_buffer@ == buffer::joined(records_of(pairs)),
            mrecord_lengths@ == buffer::sent_lengths(records_of(pairs)),
            pairs.len() > 0 ==> pairs.last().0 == last_position && last_position < u64::MAX,
        ensures
            final(self).well_formed(),
            final(self).moved_by(*old(self), pairs, payload),
    {
        if mrecord_lengths.len() == 0 {
            return None;
        }
        let from_position_exclusive = self.to_position_inclusive;
        self.from_position_inclusive = last_position + 1;
        self.to_position_inclusive = Position::Offset(last_position);
        Some(
            FetchPayload {
                mrecord_batch: MRecordBatch {
                    mrecord_buffer: bytes_from_vec(mrecord_buffer),
                    mrecord_lengths,
                },
                from_position_exclusive,
                to_position_inclusive: self.to_position_inclusive,
            },
        )
    }

    /// Serves the next batch out of the in-memory queue of the shard. The queue is drained once the
    /// batch holds every record at a readable position.
    pub fn serve_queue(&mut self, queue: &MemQueue, replication_position: &Position) -> (turn:
        FetchTurn)
        requires
            old(self).well_formed(),
            queue.well_formed(),
            replication_position.next_offset() <= u64::MAX,
        ensures
            final(self).well_formed(),
            exists|pairs: Seq<(int, Seq<u8>)>| #[trigger]
                served(queue@, *old(self), *replication_position, pairs) && final(self).moved_by(
                    *old(self),
                    pairs,
                    turn.payload,
                ) && turn.has_drained_queue == (pairs.len() == old(self).readable_of(
                    queue@,
                    *replication_position,
                ).len()),
    {
        let (start, end) = self.readable_range(replication_position);
        let pairs = queue.range(
            PositionBound::Included(start),
            PositionBound::Excluded(end),
            self.batch_num_bytes,
        );
        let ghost model = mem_queue::pairs(pairs@);
        let ghost all = self.readable_of(queue@, *replication_position);
        let ghost records = records_of(model);
        proof {
            queue.well_formed_bounds();
            mem_queue::lemma_within_in_order(queue@.records, start as int, end as int);
            if model.len() > 0 {
                assert(model.last() == all[model.len() - 1]);
            }
        }
        let mut mrecord_buffer: Vec<u8> = Vec::new();
        let mut mrecord_lengths: Vec<u32> = Vec::new();
        let mut last_position: u64 = 0;
        let mut i: usize = 0;
        assert(records.take(0) =~= seq![]);
        assert(mrecord_lengths@ =~= buffer::sent_lengths(seq![]));
        while i < pairs.len()
            invariant
                i <= pairs@.len(),
                model == mem_queue::pairs(pairs@),
                records == records_of(model),
                i > 0 ==> last_position == model[i - 1].0,
                mrecord_buffer@ == buffer::joined(records.take(i as int)),
                mrecord_lengths@ == buffer::sent_lengths(records.take(i as int)),
            decreases pairs@.len() - i,
        {
            assert(records.take(i as int).push(records[i as int]) =~= records.take(i + 1));
            add_to_batch(
                &mut mrecord_buffer,
                &mut mrecord_lengths,
                &pairs[i].1,
                Ghost(records.take(i as int)),
            );
            last_position = pairs[i].0;
            i = i + 1;
        }
        assert(records.take(pairs@.len() as int) =~= records);
        let has_drained_queue = pairs.len() == queue.count_between(start, end);
        assert(served(queue@, *self, *replication_position, model));
        let payload = self.send(mrecord_buffer, mrecord_lengths, last_position, Ghost(model));
        FetchTurn { payload, has_drained_queue }
    }

    /// Serves the next batch out of the records that the shard's log holds at the positions that
    /// may be served, with their positions.
    pub fn serve_log(&mut self, records: &Vec<(u64, Bytes)>, replication_position: &Position) -> (turn:
        FetchTurn)
        requires
            old(self).well_formed(),
            replication_position.next_offset() <= u64::MAX,
            old(self).may_serve(mem_queue::pairs(records@), *replication_position),
        ensures
            final(self).well_formed(),
            ({
                let all = mem_queue::pairs(records@);
                let n = batch_count(records_of(all), old(self).batch_num_bytes as int, 0);
                &&& n <= all.len()
                &&& final(self).moved_by(*old(self), all.take(n as int), turn.payload)
                &&& turn.has_drained_queue == (n == all.len())
            }),
    {
        let ghost pairs = mem_queue::pairs(records@);
        let ghost all = records_of(pairs);
        let cap: usize = self.batch_num_bytes;
        let mut mrecord_buffer: Vec<u8> = Vec::new();
        let mut mrecord_lengths: Vec<u32> = Vec::new();
        let mut last_position: u64 = 0;
        let mut i: usize = 0;
        assert(all.take(0) =~= seq![]);
        assert(mrecord_lengths@ =~= buffer::sent_lengths(seq![]));
        let mut full = false;
        while !full && i < records.len()
            invariant
                i <= records@.len(),
                pairs == mem_queue::pairs(records@),
                all == records_of(pairs),
                i > 0 ==> last_position == pairs[i - 1].0,
                mrecord_buffer@ == buffer::joined(all.take(i as int)),
                mrecord_lengths@ == buffer::sent_lengths(all.take(i as int)),
                batch_count(all, cap as int, 0) == batch_count(all, cap as int, i as nat),
                full ==> i < records@.len() && !fits_batch(all, cap as int, i as int),
            decreases records@.len() - i, (if full { 0int } else { 1int }),
        {
            let len: usize = bytes_as_slice(&records[i].1).len();
            proof {
                buffer::joined_len(all.take(i as int));
                assert(all[i as int].len() == len);
            }
            if mrecord_buffer.len() > 0 && (len > cap || mrecord_buffer.len() > cap - len) {
                full = true;
            } else {
                assert(all.take(i as int).push(all[i as int]) =~= all.take(i + 1));
                add_to_batch(
                    &mut mrecord_buffer,
                    &mut mrecord_lengths,
                    &records[i].1,
                    Ghost(all.take(i as int)),
                );
                last_position = records[i].0;
                i = i + 1;
            }
        }
        assert(batch_count(all, cap as int, 0) == i);
        proof {
            assert(records_of(pairs.take(i as int)) =~= all.take(i as int));
            if i > 0 {
                assert(pairs.take(i as int).last() == pairs[i - 1]);
                assert(records@[i - 1].0 == pairs[i - 1].0);
            }
        }
        let payload = self.send(
            mrecord_buffer,
            mrecord_lengths,
            last_position,
            Ghost(pairs.take(i as int)),
        );
        FetchTurn { payload, has_drained_queue: !full }
    }

    /// The position of the end of the shard, once the shard is closed and the consumer has reached
    /// everything that was replicated.
    pub fn eof(&self, has_drained_queue: bool, shard_is_closed: bool, replication_position: &Position) -> (eof:
        Option<Position>)
        ensures
            eof == if has_drained_queue && shard_is_closed && self.to_position_inclusive.reaches(
                *replication_position,
            ) {
                Some(self.to_position_inclusive.at_eof())
            } else {
                None
            },
    {
        if has_drained_queue && shard_is_closed && self.to_position_inclusive.is_at_least(
            replication_position,
        ) {
            Some(self.to_position_inclusive.as_eof())
        } else {
            None
        }
    }

    /// The error that is sent when the shard or its queue is dropped before the end was reached.
    /// This can happen if the associated source or index is deleted.
    pub fn dropped(&self) -> (error: Option<IngestV2Error>)
        ensures
            match error {
                Some(IngestV2Error::Internal(message)) => !(self.to_position_inclusive is Eof)
                    && message@ == "fetch stream ended before reaching end of shard"@,
                Some(_) => false,
                None => self.to_position_inclusive is Eof,
            },
    {
        if self.to_position_inclusive.is_eof() {
            None
        } else {
            Some(
                IngestV2Error::Internal(
                    "fetch stream ended before reaching end of shard".to_owned(),
                ),
            )
        }
    }
}

/// Whether a batch is what a task serves out of a queue next.
pub open spec fn served(
    queue: QueueModel,
    task: FetchStreamTask,
    replication_position: Position,
    pairs: Seq<(int, Seq<u8>)>,
) -> bool {
    mem_queue::capped(
        task.readable_of(queue, replication_position),
        task.batch_num_bytes as int,
        pairs,
    )
}

// ---- Draining a shard from the object-store log ----

/// Upper bound on the size of a fetch payload built from the object WAL.
pub const OBJECT_WAL_FETCH_BATCH_NUM_BYTES: usize = 8388608;

/// How far a drained log reaches.
pub enum DrainEnd {
    /// Up to this object.
    Until(WalId),
    /// Someone else fenced the log in the meantime: up to the last object of a new listing.
    Relist,
    /// The log could not be closed.
    Failed(WalError),
}

/// Decides how far a log reaches once it was tried to fence it. Another fence with a higher epoch
/// closes the log as well: the objects that are needed are all at or below the current tail.
pub fn drain_end(fenced: WalResult<Fence>) -> (end: DrainEnd)
    ensures
        end == match fenced {
            Ok(fence) => DrainEnd::Until(fence.wal_id),
            Err(WalError::Fenced) => DrainEnd::Relist,
            Err(error) => DrainEnd::Failed(error),
        },
        end == end_of(fenced),
{
    match fenced {
        Ok(fence) => DrainEnd::Until(fence.wal_id),
        Err(WalError::Fenced) => DrainEnd::Relist,
        Err(error) => DrainEnd::Failed(error),
    }
}

/// The last object of a new listing, or that of the first one if nothing is listed any more.
pub fn relisted_tail(listed: &Vec<WalObjectRef>, listed_tail: WalId) -> (tail: WalId)
    ensures
        tail == if listed@.len() > 0 {
            listed@.last().wal_id
        } else {
            listed_tail
        },
{
    if listed.len() > 0 {
        listed[listed.len() - 1].wal_id
    } else {
        listed_tail
    }
}

/// The objects to scan: those of the listing, with their sizes, then those up to the end of the log.
pub open spec fn objects_to_scan(existing: Seq<WalObjectRef>, end: u64) -> Seq<(WalId, Option<u64>)> {
    let listed = Seq::new(
        existing.len(),
        |i: int| (existing[i].wal_id, Some(existing[i].num_bytes)),
    );
    let tail = object_wal::listed_tail(existing);
    if end > tail {
        listed + Seq::new((end - tail) as nat, |i: int| (WalId((tail + 1 + i) as u64), None::<u64>))
    } else {
        listed
    }
}

/// The objects to scan.
pub fn scanned_objects(existing: &Vec<WalObjectRef>, end: WalId) -> (objects: Vec<
    (WalId, Option<u64>),
>)
    ensures
        objects@ == objects_to_scan(existing@, end.0),
        forall|i: int|
            0 <= i < existing@.len() ==> (#[trigger] objects@[i]).0 == existing@[i].wal_id
                && objects@[i].1 == Some(existing@[i].num_bytes),
        forall|i: int|
            existing@.len() <= i < objects@.len() ==> (#[trigger] objects@[i]).1 is None,
{
    let mut objects: Vec<(WalId, Option<u64>)> = Vec::new();
    let mut i: usize = 0;
    while i < existing.len()
        invariant
            i <= existing@.len(),
            objects@ =~= Seq::new(
                i as nat,
                |j: int| (existing@[j].wal_id, Some(existing@[j].num_bytes)),
            ),
        decreases existing@.len() - i,
    {
        objects.push((existing[i].wal_id, Some(existing[i].num_bytes)));
        i = i + 1;
    }
    let ghost listed = objects@;
    let tail: u64 = if existing.len() > 0 {
        existing[existing.len() - 1].wal_id.0
    } else {
        0
    };
    let mut id: u64 = tail;
    while id < end.0
        invariant
            tail <= id,
            id <= end.0 || id == tail,
            objects@ =~= listed + Seq::new(
                (id - tail) as nat,
                |j: int| (WalId((tail + 1 + j) as u64), None::<u64>),
            ),
        decreases end.0 - id,
    {
        id = id + 1;
        objects.push((WalId(id), None));
    }
    assert(objects@ =~= objects_to_scan(existing@, end.0));
    objects
}

/// What becomes of an object of a drained log, once its footer was asked for.
pub enum ScanStep {
    /// The object was garbage collected: every record it held was published. The scan goes on.
    Skip,
    /// The object holds these blocks.
    Scan(WalFooter),
    /// The drain fails.
    Fail(WalError),
}

/// Decides what becomes of an object from the answer to the read of its footer. An object that is
/// not there any more is passed over, any other error ends the drain.
pub fn scan_step(read: WalResult<WalFooter>) -> (step: ScanStep)
    ensures
        step == match read {
            Ok(footer) => ScanStep::Scan(footer),
            Err(error) => if error matches WalError::Storage(storage_error) && storage_error.kind
                == StorageErrorKind::NotFound {
                ScanStep::Skip
            } else {
                ScanStep::Fail(error)
            },
        },
        step == scan_of(read),
{
    match read {
        Ok(footer) => ScanStep::Scan(footer),
        Err(error) => {
            if error.is_storage_kind(StorageErrorKind::NotFound) {
                ScanStep::Skip
            } else {
                ScanStep::Fail(error)
            }
        },
    }
}

/// How an attempt to drain a log ended.
pub enum DrainOutcome {
    /// The log was scanned, and the end of the shard was sent.
    Drained,
    /// The consumer went away.
    ConsumerGone,
    /// The log could not be closed, listed or read.
    Failed(WalError),
}

/// The position that an attempt leaves behind, when the consumer has `reached` a position: the end
/// of the shard once the log was drained, and else that position, from which the next attempt
/// resumes.
pub open spec fn position_left(reached: Position, outcome: DrainOutcome) -> Position {
    match outcome {
        DrainOutcome::Drained => reached.at_eof(),
        _ => reached,
    }
}

/// Serves the records of a shard from the log of an ingester that is gone.
pub struct ObjectWalReplay {
    from_position_exclusive: Position,
    from_position_inclusive: u64,
    mrecord_buffer: Vec<u8>,
    mrecord_lengths: Vec<u32>,
    batch_to_position_inclusive: u64,
    batch: Ghost<Seq<Seq<u8>>>,
}

/// What adding a block to a replay gives.
pub enum BlockStep {
    /// Every record of the block is in the batch.
    Done,
    /// The batch is full: send the payload, report it sent, and go on at this record of the block.
    Send(FetchPayload, usize),
}

/// Which records of a block a batch takes next: the first index, from `i` on, at which the batch is
/// full, or the number of records. Records before `from` are passed over.
pub open spec fn block_batch_end(
    batch: Seq<Seq<u8>>,
    first: int,
    records: Seq<Seq<u8>>,
    from: int,
    i: nat,
) -> nat
    decreases records.len() - i,
{
    if i >= records.len() {
        i
    } else if first + i < from {
        block_batch_end(batch, first, records, from, i + 1)
    } else if batch.len() > 0 && buffer::total_len(batch) + records[i as int].len()
        > OBJECT_WAL_FETCH_BATCH_NUM_BYTES {
        i
    } else {
        block_batch_end(batch.push(records[i as int]), first, records, first + i + 1, i + 1)
    }
}

/// The batch once the records of a block from `i` up to `end` were added.
pub open spec fn batch_with(
    batch: Seq<Seq<u8>>,
    first: int,
    records: Seq<Seq<u8>>,
    from: int,
    i: nat,
    end: nat,
) -> Seq<Seq<u8>>
    decreases end - i,
{
    if i >= end {
        batch
    } else if first + i < from {
        batch_with(batch, first, records, from, i + 1, end)
    } else {
        batch_with(batch.push(records[i as int]), first, records, first + i + 1, i + 1, end)
    }
}

/// The position of the next record after those from index `start` up to, not including, `end` of a
/// block were considered.
pub open spec fn next_after(first_position: int, from: int, start: int, end: int) -> int {
    if start < end && first_position + end > from {
        first_position + end
    } else {
        from
    }
}

impl ObjectWalReplay {
    /// The records of the batch being filled.
    pub closed spec fn pending(self) -> Seq<Seq<u8>> {
        self.batch@
    }

    /// The position of the last record of the batch being filled.
    pub closed spec fn pending_to(self) -> u64 {
        self.batch_to_position_inclusive
    }

    /// The position that the consumer has reached.
    pub closed spec fn reached(self) -> Position {
        self.from_position_exclusive
    }

    /// The position of the next record.
    pub closed spec fn next_position(self) -> u64 {
        self.from_position_inclusive
    }

    /// The position that the consumer has reached.
    pub fn from_position_exclusive(&self) -> (position: Position)
        ensures
            position == self.reached(),
    {
        self.from_position_exclusive
    }

    pub closed spec fn well_formed(self) -> bool {
        &&& self.mrecord_buffer@ == buffer::joined(self.batch@)
        &&& self.mrecord_lengths@ == buffer::sent_lengths(self.batch@)
    }

    pub fn new(from_position_exclusive: Position) -> (replay: Self)
        requires
            from_position_exclusive.next_offset() <= u64::MAX,
        ensures
            replay.well_formed(),
            replay.reached() == from_position_exclusive,
            replay.next_position() == from_position_exclusive.next_offset(),
            replay.pending() == Seq::<Seq<u8>>::empty(),
    {
        let from_position_inclusive: u64 = match from_position_exclusive.as_u64() {
            Some(offset) => offset + 1,
            None => 0,
        };
        let replay = ObjectWalReplay {
            from_position_exclusive,
            from_position_inclusive,
            mrecord_buffer: Vec::new(),
            mrecord_lengths: Vec::new(),
            batch_to_position_inclusive: 0,
            batch: Ghost(Seq::<Seq<u8>>::empty()),
        };
        assert(replay.mrecord_lengths@ =~= buffer::sent_lengths(seq![]));
        replay
    }

    /// Whether a block has to be read: it holds records of the queue from the next position on.
    pub fn needs_block(&self, meta: &WalBlockMeta, queue_id: &str) -> (needs: bool)
        requires
            meta@.positions_fit(),
        ensures
            needs == reader::holds(meta@, queue_id@, self.next_position()),
    {
        replays_block(meta, queue_id, self.from_position_inclusive)
    }

    fn take_payload(&mut self) -> (payload: FetchPayload)
        requires
            old(self).well_formed(),
        ensures
            final(self).well_formed(),
            final(self).pending() == Seq::<Seq<u8>>::empty(),
            final(self).reached() == old(self).reached(),
            final(self).next_position() == old(self).next_position(),
            final(self).pending_to() == old(self).pending_to(),
            payload.holds(old(self).pending()),
            payload.from_position_exclusive == old(self).reached(),
            payload.to_position_inclusive == Position::Offset(old(self).pending_to()),
    {
        let mut mrecord_buffer: Vec<u8> = Vec::new();
        let mut mrecord_lengths: Vec<u32> = Vec::new();
        std::mem::swap(&mut mrecord_buffer, &mut self.mrecord_buffer);
        std::mem::swap(&mut mrecord_lengths, &mut self.mrecord_lengths);
        self.batch = Ghost(Seq::<Seq<u8>>::empty());
        assert(self.mrecord_lengths@ =~= buffer::sent_lengths(seq![]));
        FetchPayload {
            mrecord_batch: MRecordBatch {
                mrecord_buffer: bytes_from_vec(mrecord_buffer),
                mrecord_lengths,
            },
            // Always continue from what the consumer last saw, so its checkpoint delta chains
            // even if the log has a gap.
            from_position_exclusive: self.from_position_exclusive,
            to_position_inclusive: Position::Offset(self.batch_to_position_inclusive),
        }
    }

    /// Adds the records of a block, from the one at index `start` on, until the batch is full.
    pub fn add_block(&mut self, first_position: u64, records: &Vec<Bytes>, start: usize) -> (step:
        BlockStep)
        requires
            old(self).well_formed(),
            first_position + records@.len() <= u64::MAX,
            start <= records@.len(),
        ensures
            final(self).well_formed(),
            final(self).reached() == old(self).reached(),
            ({
                let all = buffer::contents(records@);
                let first = first_position as int;
                let from = old(self).next_position() as int;
                let end = block_batch_end(old(self).pending(), first, all, from, start as nat);
                let batch = batch_with(old(self).pending(), first, all, from, start as nat, end);
                &&& start <= end <= all.len()
                &&& final(self).next_position() == next_after(first, from, start as int, end as int)
                &&& final(self).pending_to() == if final(self).next_position() > from {
                    (final(self).next_position() - 1) as u64
                } else {
                    old(self).pending_to()
                }
                &&& match step {
                    BlockStep::Done => end == all.len() && final(self).pending() == batch,
                    BlockStep::Send(payload, next) => end < all.len() && next == end
                        && batch.len() > 0 && payload.holds(batch)
                        && payload.from_position_exclusive == old(self).reached()
                        && payload.to_position_inclusive == Position::Offset(
                        final(self).pending_to(),
                    ) && final(self).pending() == Seq::<Seq<u8>>::empty(),
                }
            }),
    {
        let ghost all = buffer::contents(records@);
        let ghost first = first_position as int;
        let ghost end = block_batch_end(
            self.pending(),
            first,
            all,
            self.from_position_inclusive as int,
            start as nat,
        );
        let ghost batch = batch_with(
            self.pending(),
            first,
            all,
            self.from_position_inclusive as int,
            start as nat,
            end,
        );
        let mut i: usize = start;
        proof {
            lemma_block_batch_end_bounds(
                self.pending(),
                first,
                all,
                self.from_position_inclusive as int,
                start as nat,
            );
        }
        while i < records.len()
            invariant
                start <= i <= records@.len(),
                i <= end <= all.len(),
                all == buffer::contents(records@),
                first == first_position,
                first_position + records@.len() <= u64::MAX,
                self.well_formed(),
                self.from_position_exclusive == old(self).reached(),
                self.from_position_inclusive == next_after(
                    first,
                    old(self).next_position() as int,
                    start as int,
                    i as int,
                ),
                self.batch_to_position_inclusive == if self.from_position_inclusive > old(
                    self,
                ).next_position() {
                    (self.from_position_inclusive - 1) as u64
                } else {
                    old(self).pending_to()
                },
                end == block_batch_end(
                    self.pending(),
                    first,
                    all,
                    self.from_position_inclusive as int,
                    i as nat,
                ),
                batch == batch_with(
                    self.pending(),
                    first,
                    all,
                    self.from_position_inclusive as int,
                    i as nat,
                    end,
                ),
                end == block_batch_end(
                    old(self).pending(),
                    first,
                    all,
                    old(self).next_position() as int,
                    start as nat,
                ),
                batch == batch_with(
                    old(self).pending(),
                    first,
                    all,
                    old(self).next_position() as int,
                    start as nat,
                    end,
                ),
            decreases records@.len() - i,
        {
            let position: u64 = first_position + i as u64;
            if position >= self.from_position_inclusive {
                let record = &records[i];
                let len: usize = bytes_as_slice(record).len();
                assert(all[i as int].len() == len);
                proof {
                    buffer::joined_len(self.batch@);
                }
                if self.mrecord_lengths.len() > 0 && (len > OBJECT_WAL_FETCH_BATCH_NUM_BYTES
                    || self.mrecord_buffer.len() > OBJECT_WAL_FETCH_BATCH_NUM_BYTES - len) {
                    let payload = self.take_payload();
                    return BlockStep::Send(payload, i);
                }
                proof {
                    lemma_block_batch_end_bounds(
                        self.pending().push(all[i as int]),
                        first,
                        all,
                        first + i + 1,
                        (i + 1) as nat,
                    );
                }
                let ghost pending = self.batch@;
                add_to_batch(
                    &mut self.mrecord_buffer,
                    &mut self.mrecord_lengths,
                    record,
                    Ghost(pending),
                );
                self.batch = Ghost(pending.push(all[i as int]));
                self.batch_to_position_inclusive = position;
                self.from_position_inclusive = position + 1;
            } else {
                proof {
                    lemma_block_batch_end_bounds(
                        self.pending(),
                        first,
                        all,
                        self.from_position_inclusive as int,
                        (i + 1) as nat,
                    );
                }
            }
            i = i + 1;
        }
        BlockStep::Done
    }

    /// Takes note that a payload was delivered: the consumer has reached its last position.
    pub fn sent(&mut self, to_position_inclusive: Position)
        requires
            old(self).well_formed(),
        ensures
            final(self).well_formed(),
            final(self).reached() == to_position_inclusive,
            final(self).next_position() == old(self).next_position(),
            final(self).pending() == old(self).pending(),
            final(self).pending_to() == old(self).pending_to(),
    {
        self.from_position_exclusive = to_position_inclusive;
    }

    /// What is left to send once the log was scanned.
    pub fn last_payload(&mut self) -> (payload: Option<FetchPayload>)
        requires
            old(self).well_formed(),
        ensures
            final(self).well_formed(),
            final(self).pending() == Seq::<Seq<u8>>::empty(),
            final(self).reached() == old(self).reached(),
            final(self).next_position() == old(self).next_position(),
            match payload {
                None => old(self).pending().len() == 0,
                Some(payload) => old(self).pending().len() > 0 && payload.holds(
                    old(self).pending(),
                ) && payload.from_position_exclusive == old(self).reached()
                    && payload.to_position_inclusive == Position::Offset(old(self).pending_to()),
            },
    {
        if self.mrecord_lengths.len() == 0 {
            assert(self.pending() =~= seq![]);
            None
        } else {
            Some(self.take_payload())
        }
    }

    /// The end of the shard, which the consumer reaches with the last record of the log.
    pub fn finish(&mut self) -> (eof: Position)
        requires
            old(self).well_formed(),
        ensures
            final(self).well_formed(),
            eof == old(self).reached().at_eof(),
            final(self).reached() == eof,
            final(self).next_position() == old(self).next_position(),
            final(self).pending() == old(self).pending(),
            final(self).pending_to() == old(self).pending_to(),
    {
        self.from_position_exclusive = self.from_position_exclusive.as_eof();
        self.from_position_exclusive
    }
}

/// Moves a consumer on after an attempt to drain a log, and returns the error to report, if the
/// attempt failed.
pub fn after_drain(replay: &ObjectWalReplay, outcome: &DrainOutcome, ingester_id: &str) -> (left: (
    Position,
    Option<IngestV2Error>,
))
    ensures
        left.0 == position_left(replay.reached(), *outcome),
        match outcome {
            DrainOutcome::Failed(error) => left.1 matches Some(IngestV2Error::Unavailable(message))
                && message@ == drain_failure(ingester_id@, *error),
            _ => left.1 is None,
        },
{
    match outcome {
        DrainOutcome::Drained => (replay.from_position_exclusive().as_eof(), None),
        DrainOutcome::ConsumerGone => (replay.from_position_exclusive(), None),
        DrainOutcome::Failed(error) => (
            replay.from_position_exclusive(),
            Some(drain_error(ingester_id, error)),
        ),
    }
}

proof fn lemma_block_batch_end_bounds(
    batch: Seq<Seq<u8>>,
    first: int,
    records: Seq<Seq<u8>>,
    from: int,
    i: nat,
)
    requires
        i <= records.len(),
    ensures
        i <= block_batch_end(batch, first, records, from, i) <= records.len(),
    decreases records.len() - i,
{
    if i < records.len() {
        if first + i < from {
            lemma_block_batch_end_bounds(batch, first, records, from, i + 1);
        } else {
            lemma_block_batch_end_bounds(
                batch.push(records[i as int]),
                first,
                records,
                first + i + 1,
                i + 1,
            );
        }
    }
}

/// What is reported when a shard could not be drained.
pub open spec fn drain_failure(ingester_id: Seq<char>, error: WalError) -> Seq<char> {
    "failed to drain shard from the object WAL of ingester `"@ + ingester_id + "`: "@
        + wal::error_text(error)
}

/// The error that reports that a shard could not be drained.
pub fn drain_error(ingester_id: &str, error: &WalError) -> (reported: IngestV2Error)
    ensures
        reported matches IngestV2Error::Unavailable(message) && message@ == drain_failure(
            ingester_id@,
            *error,
        ),
{
    let mut message = "failed to drain shard from the object WAL of ingester `".to_owned();
    message.append(ingester_id);
    message.append("`: ");
    message.append(error.to_text().as_str());
    IngestV2Error::Unavailable(message)
}

// ---- Retrying ----

/// Where an attempt to fetch a shard reads from.
#[derive(Clone, Copy, Debug, PartialEq, Eq, Structural)]
pub enum FetchSource {
    Ingester,
    ObjectWal,
}

/// Decides where an attempt reads from. With the object-store log to fall back on, an ingester that
/// has been missing from the pool for the grace period, without a break, is not asked any more.
/// Times are in milliseconds.
pub fn choose_source(
    grace_millis: Option<u64>,
    ingester_is_in_pool: bool,
    absent_since_millis: &mut Option<u64>,
    now_millis: u64,
) -> (source: FetchSource)
    ensures
        *final(absent_since_millis) == match grace_millis {
            None => *old(absent_since_millis),
            Some(_) => if ingester_is_in_pool {
                None
            } else if (*old(absent_since_millis)) is Some {
                *old(absent_since_millis)
            } else {
                Some(now_millis)
            },
        },
        source == match grace_millis {
            Some(grace) => if !ingester_is_in_pool && elapsed(
                (*final(absent_since_millis))->0,
                now_millis,
            ) >= grace {
                FetchSource::ObjectWal
            } else {
                FetchSource::Ingester
            },
            None => FetchSource::Ingester,
        },
        *final(absent_since_millis) == absence(
            grace_millis,
            ingester_is_in_pool,
            *old(absent_since_millis),
            now_millis,
        ),
        source == source_of(
            grace_millis,
            ingester_is_in_pool,
            *old(absent_since_millis),
            now_millis,
        ),
{
    match grace_millis {
        None => FetchSource::Ingester,
        Some(grace) => {
            if ingester_is_in_pool {
                *absent_since_millis = None;
                return FetchSource::Ingester;
            }
            let since: u64 = match *absent_since_millis {
                Some(since) => since,
                None => now_millis,
            };
            *absent_since_millis = Some(since);
            if now_millis.saturating_sub(since) >= grace {
                FetchSource::ObjectWal
            } else {
                FetchSource::Ingester
            }
        },
    }
}

/// The time between two moments, none if the second one is not later.
pub open spec fn elapsed(since: u64, now: u64) -> int {
    if now >= since {
        now - since
    } else {
        0
    }
}

/// Whether another attempt follows: not after the end of the shard was reached, nor after the last
/// attempt.
pub fn retries(reached: &Position, num_attempts: usize, max_attempts: usize) -> (again: bool)
    ensures
        again == (!(reached is Eof) && num_attempts < max_attempts),
        again == tries_again(*reached, num_attempts as nat, max_attempts as nat),
{
    !reached.is_eof() && num_attempts < max_attempts
}

/// What happened on a stream from an ingester.
#[derive(Clone, Copy, Debug, PartialEq, Eq, Structural)]
pub enum StreamEvent {
    /// The ingester is not in the pool.
    NoIngester,
    /// The stream could not be opened because the ingester does not have the shard.
    ShardNotFound,
    /// The stream could not be opened, or it failed.
    Failed,
    /// A payload that takes the consumer to this position came, and was passed on or not.
    Payload { to_position_inclusive: Position, delivered: bool },
    /// The end of the shard was reached at this position.
    Eof { eof_position: Position },
    /// A message without content came.
    Empty,
    /// The stream ended.
    Ended,
}

/// What the consumer has reached after an event, and whether the stream goes on.
pub open spec fn after_event(reached: Position, event: StreamEvent) -> (Position, bool) {
    match event {
        StreamEvent::ShardNotFound => (reached.at_eof(), false),
        StreamEvent::Payload { to_position_inclusive, delivered } => if delivered {
            (to_position_inclusive, true)
        } else {
            (reached, false)
        },
        StreamEvent::Eof { eof_position } => (eof_position, false),
        StreamEvent::Empty => (reached, true),
        _ => (reached, false),
    }
}

/// Moves a consumer on. A shard that its ingester does not have counts as read to its end.
pub fn on_stream_event(reached: &mut Position, event: StreamEvent) -> (goes_on: bool)
    ensures
        (*final(reached), goes_on) == after_event(*old(reached), event),
{
    match event {
        StreamEvent::ShardNotFound => {
            *reached = reached.as_eof();
            false
        },
        StreamEvent::Payload { to_position_inclusive, delivered } => {
            if delivered {
                *reached = to_position_inclusive;
            }
            delivered
        },
        StreamEvent::Eof { eof_position } => {
            *reached = eof_position;
            false
        },
        StreamEvent::Empty => true,
        StreamEvent::NoIngester => false,
        StreamEvent::Failed => false,
        StreamEvent::Ended => false,
    }
}

/// The error that reports that an ingester is not in the pool.
pub fn ingester_unavailable(ingester_id: &str) -> (error: IngestV2Error)
    ensures
        error matches IngestV2Error::Unavailable(message) && message@ == "ingester `"@
            + ingester_id@ + "` is unavailable: closing fetch stream"@,
{
    let mut message = "ingester `".to_owned();
    message.append(ingester_id);
    message.append("` is unavailable: closing fetch stream");
    IngestV2Error::Unavailable(message)
}

// ---- Many shards ----

/// Combines fetch streams originating from different ingesters: which shards are subscribed to, and
/// the handle of the task that serves each.
pub struct MultiFetchStream<H> {
    fetch_task_handles: TextMap<H>,
}

impl<H> MultiFetchStream<H> {
    pub closed spec fn well_formed(self) -> bool {
        self.fetch_task_handles.well_formed()
    }

    /// The handle of each queue that is subscribed to.
    pub closed spec fn handles(self) -> Map<Seq<char>, H> {
        self.fetch_task_handles@
    }

    pub fn new() -> (stream: Self)
        ensures
            stream.well_formed(),
            stream.handles() == Map::<Seq<char>, H>::empty(),
    {
        MultiFetchStream { fetch_task_handles: TextMap::new() }
    }

    /// Whether a shard can be subscribed to: not twice.
    pub fn check_subscribe(&self, queue_id: &str) -> (checked: Result<(), IngestV2Error>)
        requires
            self.well_formed(),
        ensures
            match checked {
                Ok(_) => !self.handles().contains_key(queue_id@),
                Err(IngestV2Error::Internal(message)) => self.handles().contains_key(queue_id@)
                    && message@ == "stream has already subscribed to shard `"@ + queue_id@ + "`"@,
                Err(_) => false,
            },
    {
        if self.fetch_task_handles.contains(queue_id) {
            let mut message = "stream has already subscribed to shard `".to_owned();
            message.append(queue_id);
            message.append("`");
            return Err(IngestV2Error::Internal(message));
        }
        Ok(())
    }

    /// Takes note of the task that serves a shard.
    pub fn subscribed(&mut self, queue_id: &str, handle: H)
        requires
            old(self).well_formed(),
            !old(self).handles().contains_key(queue_id@),
        ensures
            final(self).well_formed(),
            final(self).handles() == old(self).handles().insert(queue_id@, handle),
    {
        self.fetch_task_handles.insert(queue_id, handle);
    }

    /// Takes the task that serves a shard out, to be aborted.
    pub fn unsubscribe(&mut self, queue_id: &str) -> (handle: Option<H>)
        requires
            old(self).well_formed(),
        ensures
            final(self).well_formed(),
            final(self).handles() == old(self).handles().remove(queue_id@),
            match handle {
                Some(handle) => old(self).handles().contains_key(queue_id@) && handle == old(
                    self,
                ).handles()[queue_id@],
                None => !old(self).handles().contains_key(queue_id@),
            },
    {
        self.fetch_task_handles.remove(queue_id)
    }

    /// Takes one task out, to be aborted; none once no shard is subscribed to.
    pub fn reset_next(&mut self) -> (handle: Option<H>)
        requires
            old(self).well_formed(),
        ensures
            final(self).well_formed(),
            match handle {
                Some(handle) => exists|queue_id: Seq<char>| #[trigger]
                    old(self).handles().contains_key(queue_id) && handle == old(
                        self,
                    ).handles()[queue_id] && final(self).handles() == old(self).handles().remove(
                        queue_id,
                    ),
                None => old(self).handles() == Map::<Seq<char>, H>::empty() && *final(self) == *old(
                    self,
                ),
            },
    {
        if self.fetch_task_handles.len() == 0 {
            assert(self.handles() =~= Map::<Seq<char>, H>::empty());
            return None;
        }
        let key = self.fetch_task_handles.key_at(0).clone();
        proof {
            self.fetch_task_handles.entry_at(0);
        }
        let ghost before = self.handles();
        assert(before.contains_key(key@));
        self.fetch_task_handles.remove(key.as_str())
    }
}

// ---- Laws ----

/// A position may be served exactly if it is at or behind the next one, and, with the bound on the
/// replication position, not behind that.
pub proof fn readable_positions_are_durable(
    task: FetchStreamTask,
    replication_position: Position,
    position: int,
)
    ensures
        ({
            let (start, end) = task.readable(replication_position);
            &&& start == task.from_position_inclusive
            &&& start <= end
            &&& task.bound_by_replication_position ==> (start <= position < end <==> position
                >= task.from_position_inclusive && (replication_position.offset() matches Some(last)
                && position <= last))
            &&& !task.bound_by_replication_position ==> (start <= position < end <==> position
                >= task.from_position_inclusive && position < u64::MAX)
        }),
{
}

/// What a task may serve of a queue is what the queue holds at the positions that may be served.
pub proof fn readable_records_are_in_the_queue(
    task: FetchStreamTask,
    queue: QueueModel,
    replication_position: Position,
    record: (int, Seq<u8>),
)
    ensures
        task.readable_of(queue, replication_position).contains(record)
            <==> queue.records.contains(record) && record.0 >= task.from_position_inclusive && (
        task.bound_by_replication_position ==> record.0 < replication_position.next_offset()) && (
        !task.bound_by_replication_position ==> record.0 < u64::MAX),
{
    let (start, end) = task.readable(replication_position);
    mem_queue::within_takes_the_records_of_a_range(queue.records, start, end, record);
}

/// Records may be served exactly if they all are at positions that may be.
pub proof fn only_readable_records_may_be_served(
    task: FetchStreamTask,
    pairs: Seq<(int, Seq<u8>)>,
    replication_position: Position,
)
    ensures
        task.may_serve(pairs, replication_position) <==> forall|i: int|
            0 <= i < pairs.len() ==> (#[trigger] pairs[i]).0 >= task.from_position_inclusive && (
            task.bound_by_replication_position ==> pairs[i].0 < replication_position.next_offset())
                && (!task.bound_by_replication_position ==> pairs[i].0 < u64::MAX),
{
}

/// A turn that sends records moves the task behind the last of them, and the payload takes the
/// consumer from where it was to there. A turn that sends nothing moves nothing.
pub proof fn turns_move_behind_what_they_send(
    before: FetchStreamTask,
    after: FetchStreamTask,
    pairs: Seq<(int, Seq<u8>)>,
    payload: Option<FetchPayload>,
)
    requires
        after.moved_by(before, pairs, payload),
        after.well_formed(),
    ensures
        payload is None <==> pairs.len() == 0,
        payload is None ==> after == before,
        payload matches Some(sent) ==> {
            &&& after.from_position_inclusive - 1 == pairs[pairs.len() - 1].0
            &&& sent.from_position_exclusive == before.to_position_inclusive
            &&& sent.to_position_inclusive.next_offset() == after.from_position_inclusive
            &&& !(sent.to_position_inclusive is Eof)
            &&& sent.mrecord_batch.mrecord_lengths@.len() == pairs.len()
            &&& buffer::bytes_content(sent.mrecord_batch.mrecord_buffer) == buffer::joined(
                records_of(pairs),
            )
            &&& forall|i: int|
                0 <= i < pairs.len() && pairs[i].1.len() <= u32::MAX
                    ==> #[trigger] sent.mrecord_batch.mrecord_lengths@[i] == pairs[i].1.len()
        },
        after.batch_num_bytes == before.batch_num_bytes,
        after.bound_by_replication_position == before.bound_by_replication_position,
{
    if let Some(sent) = payload {
        assert forall|i: int| 0 <= i < pairs.len() && pairs[i].1.len() <= u32::MAX implies (
        #[trigger] sent.mrecord_batch.mrecord_lengths@[i]) == pairs[i].1.len() by {
            buffer::lengths_are_sent_as_they_are(records_of(pairs), i);
        }
    }
}

/// A turn serves the first records that may be served: as many as its batch takes, and at least one
/// if there is any.
pub proof fn turns_serve_the_first_records(
    queue: QueueModel,
    task: FetchStreamTask,
    replication_position: Position,
    pairs: Seq<(int, Seq<u8>)>,
)
    requires
        served(queue, task, replication_position, pairs),
    ensures
        ({
            let all = task.readable_of(queue, replication_position);
            &&& pairs.len() <= all.len()
            &&& forall|i: int| 0 <= i < pairs.len() ==> #[trigger] pairs[i] == all[i]
            &&& all.len() > 0 ==> pairs.len() > 0
            &&& pairs.len() > 1 ==> mem_queue::pairs_len(pairs) <= task.batch_num_bytes
            &&& pairs.len() < all.len() ==> mem_queue::pairs_len(pairs)
                + all[pairs.len() as int].1.len() > task.batch_num_bytes
        }),
{
    let all = task.readable_of(queue, replication_position);
    let n = pairs.len() as int;
    if n > 1 {
        assert(all.take(n) =~= pairs);
    }
    if n < all.len() {
        assert(all.take(n + 1).drop_last() =~= pairs);
        assert(all.take(n + 1).last() == all[n]);
    }
}

/// A batch of the log takes records as long as they fit, and one at least: the records before the
/// last one leave room for it, and there is none for the next.
pub proof fn log_batches_take_what_fits(records: Seq<Seq<u8>>, cap: int, i: nat)
    requires
        i <= records.len(),
    ensures
        ({
            let n = batch_count(records, cap, i);
            &&& i <= n <= records.len()
            &&& forall|k: int|
                i <= k < n ==> buffer::total_len(#[trigger] records.take(k)) == 0
                    || buffer::total_len(records.take(k)) + records[k].len() <= cap
            &&& n < records.len() ==> buffer::total_len(records.take(n as int)) > 0
                && buffer::total_len(records.take(n as int)) + records[n as int].len() > cap
        }),
    decreases records.len() - i,
{
    if i < records.len() && fits_batch(records, cap, i as int) {
        log_batches_take_what_fits(records, cap, i + 1);
        let n = batch_count(records, cap, i);
        assert forall|k: int| i <= k < n implies buffer::total_len(#[trigger] records.take(k)) == 0
            || buffer::total_len(records.take(k)) + records[k].len() <= cap by {
            if k == i {
                assert(fits_batch(records, cap, k));
            }
        }
    }
}

/// The records of positioned records are theirs, one for one.
pub proof fn records_come_without_their_positions(pairs: Seq<(int, Seq<u8>)>, i: int)
    requires
        0 <= i < pairs.len(),
    ensures
        records_of(pairs).len() == pairs.len(),
        records_of(pairs)[i] == pairs[i].1,
{
}

/// A drained log is scanned from its first listed object to its end. Every listed object goes with
/// the size that was listed for it; behind them stands every id from the listed tail up to the end,
/// once each and in order, whose size is not known.
pub proof fn every_object_is_scanned_with_its_own_size(
    existing: Seq<WalObjectRef>,
    end: u64,
    tail: u64,
)
    requires
        existing.len() == 0 ==> tail == 0,
        existing.len() > 0 ==> tail == existing[existing.len() - 1].wal_id.0,
    ensures
        ({
            let objects = objects_to_scan(existing, end);
            &&& objects.len() == existing.len() + if end > tail {
                end - tail
            } else {
                0
            }
            &&& forall|i: int|
                0 <= i < existing.len() ==> (#[trigger] objects[i]).0 == existing[i].wal_id
                    && objects[i].1 == Some(existing[i].num_bytes)
            &&& forall|i: int|
                existing.len() <= i < objects.len() ==> (#[trigger] objects[i]).0.0 == tail + 1 + i
                    - existing.len() && objects[i].1 is None
        }),
{
}

/// A drain leaves the end of the shard behind only if it got there, and otherwise exactly the position
/// that the consumer has reached.
pub proof fn drains_leave_the_end_only_when_done(reached: Position, outcome: DrainOutcome)
    ensures
        outcome is Drained ==> position_left(reached, outcome) is Eof && position_left(
            reached,
            outcome,
        ).offset() == reached.offset(),
        !(outcome is Drained) ==> position_left(reached, outcome) == reached,
{
}

/// A batch of a drained block stays within its limit, unless it is a single record or took nothing,
/// and it is full when it ends before the block: the next record is needed, and there is no room.
pub proof fn drained_batches_are_full(
    batch: Seq<Seq<u8>>,
    first: int,
    records: Seq<Seq<u8>>,
    from: int,
    i: nat,
)
    requires
        i <= records.len(),
    ensures
        ({
            let end = block_batch_end(batch, first, records, from, i);
            let filled = batch_with(batch, first, records, from, i, end);
            &&& i <= end <= records.len()
            &&& filled == batch || filled.len() == 1 || buffer::total_len(filled) <= 8 * 1024 * 1024
            &&& end < records.len() ==> first + end >= from && filled.len() > 0
                && buffer::total_len(filled) + records[end as int].len() > 8 * 1024 * 1024
        }),
    decreases records.len() - i,
{
    lemma_block_batch_end_bounds(batch, first, records, from, i);
    if i < records.len() {
        let record = records[i as int];
        if first + i < from {
            drained_batches_are_full(batch, first, records, from, i + 1);
            lemma_block_batch_end_bounds(batch, first, records, from, i + 1);
        } else if batch.len() > 0 && buffer::total_len(batch) + record.len()
            > OBJECT_WAL_FETCH_BATCH_NUM_BYTES {
        } else {
            drained_batches_are_full(batch.push(record), first, records, first + i + 1, i + 1);
            lemma_block_batch_end_bounds(
                batch.push(record),
                first,
                records,
                first + i + 1,
                i + 1,
            );
            buffer::lengths_add_up(batch, record);
        }
    }
}

/// How far a log reaches, from the answer to its fencing.
pub open spec fn end_of(fenced: WalResult<Fence>) -> DrainEnd {
    match fenced {
        Ok(fence) => DrainEnd::Until(fence.wal_id),
        Err(error) => if error == WalError::Fenced {
            DrainEnd::Relist
        } else {
            DrainEnd::Failed(error)
        },
    }
}

/// A log is drained only once it is closed: by the fence that was written, or by someone else's. In
/// every other case the drain fails, with the error of the fencing.
pub proof fn only_closed_logs_are_drained(fenced: WalResult<Fence>)
    ensures
        end_of(fenced) is Until <==> fenced is Ok,
        end_of(fenced) matches DrainEnd::Until(id) ==> id == fenced->Ok_0.wal_id,
        end_of(fenced) is Relist <==> fenced == Err::<Fence, WalError>(WalError::Fenced),
        end_of(fenced) matches DrainEnd::Failed(error) ==> fenced == Err::<Fence, WalError>(error),
{
}

/// What becomes of an object, from the answer to the read of its footer.
pub open spec fn scan_of(read: WalResult<WalFooter>) -> ScanStep {
    match read {
        Ok(footer) => ScanStep::Scan(footer),
        Err(error) => if error matches WalError::Storage(storage_error) && storage_error.kind
            == StorageErrorKind::NotFound {
            ScanStep::Skip
        } else {
            ScanStep::Fail(error)
        },
    }
}

/// No object of a log is left out of a drain but one that is gone. One that cannot be read stops the
/// drain with the error.
pub proof fn only_objects_that_are_gone_are_left_out(read: WalResult<WalFooter>)
    ensures
        read is Ok ==> scan_of(read) == ScanStep::Scan(read->Ok_0),
        scan_of(read) is Skip <==> (read matches Err(WalError::Storage(error)) && error.kind
            == StorageErrorKind::NotFound),
        read is Err && !(scan_of(read) is Skip) ==> scan_of(read) == ScanStep::Fail(read->Err_0),
{
}

/// Whether another attempt follows.
pub open spec fn tries_again(reached: Position, num_attempts: nat, max_attempts: nat) -> bool {
    !(reached is Eof) && num_attempts < max_attempts
}

/// Attempts go on until the end of the shard, or until all of them are made: a shard that was not
/// read to its end is tried again as long as an attempt is left.
pub proof fn attempts_go_on_until_the_end(reached: Position, num_attempts: nat, max_attempts: nat)
    ensures
        reached is Eof ==> !tries_again(reached, num_attempts, max_attempts),
        num_attempts >= max_attempts ==> !tries_again(reached, num_attempts, max_attempts),
        !(reached is Eof) && num_attempts < max_attempts ==> tries_again(
            reached,
            num_attempts,
            max_attempts,
        ),
{
}

/// Since when an ingester has been missing, after a look at the pool.
pub open spec fn absence(
    grace_millis: Option<u64>,
    ingester_is_in_pool: bool,
    absent_since_millis: Option<u64>,
    now_millis: u64,
) -> Option<u64> {
    if grace_millis is None {
        absent_since_millis
    } else if ingester_is_in_pool {
        None
    } else if absent_since_millis is Some {
        absent_since_millis
    } else {
        Some(now_millis)
    }
}

/// Where an attempt reads from, after a look at the pool.
pub open spec fn source_of(
    grace_millis: Option<u64>,
    ingester_is_in_pool: bool,
    absent_since_millis: Option<u64>,
    now_millis: u64,
) -> FetchSource {
    let since = absence(grace_millis, ingester_is_in_pool, absent_since_millis, now_millis);
    match (grace_millis, since) {
        (Some(grace), Some(since)) => if elapsed(since, now_millis) >= grace {
            FetchSource::ObjectWal
        } else {
            FetchSource::Ingester
        },
        _ => FetchSource::Ingester,
    }
}

/// An ingester is given up for its log only if there is a log to fall back on, and the ingester is
/// missing now and has been for the grace period. One that is in the pool is always asked itself.
pub proof fn ingesters_are_given_up_after_the_grace_period(
    grace: u64,
    since: u64,
    absent_since_millis: Option<u64>,
    now_millis: u64,
    ingester_is_in_pool: bool,
)
    ensures
        source_of(None, ingester_is_in_pool, absent_since_millis, now_millis)
            == FetchSource::Ingester,
        source_of(Some(grace), true, absent_since_millis, now_millis) == FetchSource::Ingester,
        source_of(Some(grace), false, None, now_millis) == FetchSource::ObjectWal <==> grace == 0,
        source_of(Some(grace), false, Some(since), now_millis) == FetchSource::ObjectWal <==> since
            + grace <= now_millis || grace == 0,
{
}

/// An absence is counted from the look that finds it, as long as no look finds the ingester back,
/// which ends it. Without a log to fall back on, absences are not looked at.
pub proof fn absences_are_counted_without_a_break(
    grace: u64,
    since: u64,
    absent_since_millis: Option<u64>,
    now_millis: u64,
    ingester_is_in_pool: bool,
)
    ensures
        absence(Some(grace), true, absent_since_millis, now_millis) is None,
        absence(Some(grace), false, None, now_millis) == Some(now_millis),
        absence(Some(grace), false, Some(since), now_millis) == Some(since),
        absence(None, ingester_is_in_pool, absent_since_millis, now_millis) == absent_since_millis,
{
}

/// Only the end of the shard, and a shard that is not found, take a consumer to the end. A payload
/// that was delivered takes it to the position of the payload, and everything else leaves it where
/// it was.
pub proof fn only_the_end_ends_a_shard(reached: Position, event: StreamEvent)
    ensures
        after_event(reached, event).0 is Eof ==> reached is Eof || event is ShardNotFound || (
        event matches StreamEvent::Eof { eof_position } && eof_position is Eof) || (
        event matches StreamEvent::Payload { to_position_inclusive, delivered } && delivered
            && to_position_inclusive is Eof),
        event matches StreamEvent::Payload { to_position_inclusive, delivered } && delivered
            ==> after_event(reached, event).0 == event->to_position_inclusive,
        event matches StreamEvent::Payload { to_position_inclusive, delivered } && !delivered
            ==> after_event(reached, event).0 == reached,
        event matches StreamEvent::Eof { eof_position } ==> after_event(reached, event).0
            == event->eof_position,
        event is ShardNotFound ==> after_event(reached, event).0 is Eof && after_event(
            reached,
            event,
        ).0.offset() == reached.offset(),
        event is NoIngester || event is Failed || event is Empty || event is Ended ==> after_event(
            reached,
            event,
        ).0 == reached,
{
}

/// A stream goes on exactly after a payload that was delivered, and after a message without content.
pub proof fn streams_go_on_while_they_deliver(reached: Position, event: StreamEvent)
    ensures
        after_event(reached, event).1 <==> event is Empty || (event matches StreamEvent::Payload {
            delivered,
            ..
        } && delivered),
{
}

/// The time between two moments is what is to be added to the first to get to the second, and none if
/// that is in the past.
pub proof fn time_passes_forward(since: u64, now: u64)
    ensures
        since <= now ==> since + elapsed(since, now) == now,
        now <= since ==> elapsed(since, now) == 0,
{
}

/// The payloads of a shard chain: each starts where the one before it ended.
pub proof fn payloads_chain(
    first: FetchStreamTask,
    second: FetchStreamTask,
    third: FetchStreamTask,
    records: Seq<(int, Seq<u8>)>,
    more: Seq<(int, Seq<u8>)>,
    payload: FetchPayload,
    next: FetchPayload,
)
    requires
        second.moved_by(first, records, Some(payload)),
        third.moved_by(second, more, Some(next)),
    ensures
        next.from_position_exclusive == payload.to_position_inclusive,
{
}

/// No record is passed over, and none is sent twice: what may be served is what a turn serves,
/// followed by what may be served after it.
pub proof fn every_record_is_served_once(
    queue: QueueModel,
    task: FetchStreamTask,
    later: FetchStreamTask,
    replication_position: Position,
    pairs: Seq<(int, Seq<u8>)>,
    payload: Option<FetchPayload>,
)
    requires
        mem_queue::in_order(queue.records),
        served(queue, task, replication_position, pairs),
        later.moved_by(task, pairs, payload),
    ensures
        task.readable_of(queue, replication_position) == pairs + later.readable_of(
            queue,
            replication_position,
        ),
{
    let all = task.readable_of(queue, replication_position);
    if pairs.len() == 0 {
        assert(all =~= pairs + all);
    } else {
        let (start, end) = task.readable(replication_position);
        let n = pairs.len() as int;
        let middle = pairs.last().0 + 1;
        assert(pairs.last() == all[n - 1]);
        mem_queue::lemma_within_in_order(queue.records, start, end);
        mem_queue::lemma_within_splits(queue.records, start, middle, end);
        mem_queue::lemma_within_in_order(queue.records, start, middle);
        mem_queue::lemma_within_in_order(queue.records, middle, end);
        let before = queue.between(start, middle);
        let after = queue.between(middle, end);
        assert(all == before + after);
        if before.len() < n {
            assert(all[n - 1] == after[n - 1 - before.len()]);
        }
        if before.len() > n {
            assert(all[n] == before[n]);
            assert(all[n - 1].0 < all[n].0);
        }
        assert(before =~= pairs);
        assert(later.readable(replication_position) == (middle, end));
    }
}

/// A shard is drained once its last readable record was sent: nothing may be served any more.
pub proof fn drained_queues_have_nothing_left(
    queue: QueueModel,
    task: FetchStreamTask,
    later: FetchStreamTask,
    replication_position: Position,
    pairs: Seq<(int, Seq<u8>)>,
    payload: Option<FetchPayload>,
)
    requires
        mem_queue::in_order(queue.records),
        served(queue, task, replication_position, pairs),
        later.moved_by(task, pairs, payload),
    ensures
        (pairs.len() == task.readable_of(queue, replication_position).len()) == (later.readable_of(
            queue,
            replication_position,
        ).len() == 0),
{
    every_record_is_served_once(queue, task, later, replication_position, pairs, payload);
}

/// With the bound on the replication position, no record behind it is served out of a queue, and the
/// consumer is not taken behind it.
pub proof fn only_replicated_records_are_served(
    queue: QueueModel,
    task: FetchStreamTask,
    later: FetchStreamTask,
    replication_position: Position,
    pairs: Seq<(int, Seq<u8>)>,
    payload: Option<FetchPayload>,
)
    requires
        task.bound_by_replication_position,
        mem_queue::in_order(queue.records),
        served(queue, task, replication_position, pairs),
        later.moved_by(task, pairs, payload),
    ensures
        forall|i: int|
            0 <= i < pairs.len() ==> (#[trigger] pairs[i]).0 < replication_position.next_offset(),
        payload is Some ==> later.from_position_inclusive <= replication_position.next_offset(),
{
    let (start, end) = task.readable(replication_position);
    let all = task.readable_of(queue, replication_position);
    mem_queue::lemma_within_in_order(queue.records, start, end);
    assert forall|i: int| 0 <= i < pairs.len() implies (#[trigger] pairs[i]).0
        < replication_position.next_offset() by {
        assert(pairs[i] == all[i]);
    }
}

/// The same holds of what is served out of the log.
pub proof fn only_replicated_records_are_served_from_the_log(
    records: Seq<(int, Seq<u8>)>,
    task: FetchStreamTask,
    later: FetchStreamTask,
    replication_position: Position,
    n: int,
    payload: Option<FetchPayload>,
)
    requires
        task.bound_by_replication_position,
        task.may_serve(records, replication_position),
        0 <= n <= records.len(),
        later.moved_by(task, records.take(n), payload),
    ensures
        forall|i: int|
            0 <= i < n ==> (#[trigger] records[i]).0 < replication_position.next_offset(),
        payload is Some ==> later.from_position_inclusive <= replication_position.next_offset(),
{
    if n > 0 {
        assert(records.take(n).last() == records[n - 1]);
    }
}

/// The records of a list, with their positions, that a consumer is sent who needs those from a
/// position on: none before it, and none twice.
pub open spec fn drained(list: Seq<(int, Seq<u8>)>, from: int) -> Seq<(int, Seq<u8>)>
    decreases list.len(),
{
    if list.len() == 0 {
        seq![]
    } else if list[0].0 < from {
        drained(list.drop_first(), from)
    } else {
        seq![list[0]] + drained(list.drop_first(), list[0].0 + 1)
    }
}

/// The position that a consumer needs next after it was sent records.
pub open spec fn needed_next(sent: Seq<(int, Seq<u8>)>, from: int) -> int {
    if sent.len() == 0 {
        from
    } else {
        sent.last().0 + 1
    }
}

/// The records of a block, with their positions.
pub open spec fn block_pairs(first: int, records: Seq<Seq<u8>>) -> Seq<(int, Seq<u8>)> {
    Seq::new(records.len(), |i: int| (first + i, records[i]))
}

/// A drain that is given up after a consumer was sent some of the records, and taken up again from
/// the position left behind, sends the rest: no record is lost, and none is sent twice.
pub proof fn failed_drains_resume_where_they_got_to(
    log: Seq<(int, Seq<u8>)>,
    from_position_exclusive: Position,
    reached: Position,
    outcome: DrainOutcome,
    k: int,
)
    requires
        !(outcome is Drained),
        ({
            let sent = drained(log, from_position_exclusive.next_offset());
            &&& 0 <= k <= sent.len()
            &&& reached.next_offset() == needed_next(
                sent.take(k),
                from_position_exclusive.next_offset(),
            )
        }),
    ensures
        ({
            let all = drained(log, from_position_exclusive.next_offset());
            all == all.take(k) + drained(log, position_left(reached, outcome).next_offset())
        }),
{
    lemma_drained_splits(log, from_position_exclusive.next_offset(), k);
}

proof fn lemma_drained_splits(list: Seq<(int, Seq<u8>)>, from: int, k: int)
    requires
        0 <= k <= drained(list, from).len(),
    ensures
        needed_next(drained(list, from).take(k), from) >= from,
        drained(list, from) == drained(list, from).take(k) + drained(
            list,
            needed_next(drained(list, from).take(k), from),
        ),
    decreases list.len(),
{
    let all = drained(list, from);
    let next = needed_next(all.take(k), from);
    if k == 0 {
        assert(all =~= all.take(0) + all);
    } else if list[0].0 < from {
        lemma_drained_splits(list.drop_first(), from, k);
    } else {
        let first = list[0];
        let rest = drained(list.drop_first(), first.0 + 1);
        lemma_drained_splits(list.drop_first(), first.0 + 1, k - 1);
        assert(all.take(k) =~= seq![first] + rest.take(k - 1));
        if k > 1 {
            assert(all.take(k).last() == rest.take(k - 1).last());
        }
        assert(next == needed_next(rest.take(k - 1), first.0 + 1));
        assert(all =~= all.take(k) + drained(list, next));
    }
}

/// A log is drained block by block: what is sent of two parts of it is what is sent of the first,
/// then what is sent of the second from there on.
pub proof fn drains_go_on_from_block_to_block(
    first: Seq<(int, Seq<u8>)>,
    second: Seq<(int, Seq<u8>)>,
    from: int,
)
    ensures
        drained(first + second, from) == drained(first, from) + drained(
            second,
            needed_next(drained(first, from), from),
        ),
    decreases first.len(),
{
    if first.len() == 0 {
        assert(first + second =~= second);
        assert(drained(first + second, from) =~= drained(first, from) + drained(second, from));
    } else {
        let rest = first.drop_first();
        assert((first + second).drop_first() =~= rest + second);
        if first[0].0 < from {
            drains_go_on_from_block_to_block(rest, second, from);
        } else {
            let next = first[0].0 + 1;
            drains_go_on_from_block_to_block(rest, second, next);
            let sent = drained(rest, next);
            if sent.len() > 0 {
                assert((seq![first[0]] + sent).last() == sent.last());
            }
            assert(drained(first + second, from) =~= drained(first, from) + drained(
                second,
                needed_next(drained(first, from), from),
            ));
        }
    }
}

/// A batch takes exactly the records of a block that the consumer needs, and then needs the record
/// behind them.
pub proof fn blocks_fill_batches_with_what_is_needed(
    batch: Seq<Seq<u8>>,
    first: int,
    records: Seq<Seq<u8>>,
    from: int,
    i: nat,
    end: nat,
)
    requires
        i <= end <= records.len(),
    ensures
        ({
            let part = drained(block_pairs(first, records).subrange(i as int, end as int), from);
            &&& batch_with(batch, first, records, from, i, end) == batch + records_of(part)
            &&& next_after(first, from, i as int, end as int) == needed_next(part, from)
        }),
    decreases end - i,
{
    let pairs = block_pairs(first, records).subrange(i as int, end as int);
    let part = drained(pairs, from);
    if i < end {
        let rest = block_pairs(first, records).subrange(i as int + 1, end as int);
        assert(pairs.drop_first() =~= rest);
        if first + i < from {
            blocks_fill_batches_with_what_is_needed(batch, first, records, from, i + 1, end);
        } else {
            let record = records[i as int];
            let tail = drained(rest, first + i + 1);
            blocks_fill_batches_with_what_is_needed(
                batch.push(record),
                first,
                records,
                first + i + 1,
                i + 1,
                end,
            );
            assert(part == seq![pairs[0]] + tail);
            if tail.len() > 0 {
                assert(part.last() == tail.last());
            }
            assert(batch.push(record) + records_of(tail) =~= batch + records_of(part));
        }
    } else {
        assert(records_of(part) =~= seq![]);
        assert(batch + records_of(part) =~= batch);
    }
}

/// A batch from the log holds at least one record if there is any.
pub proof fn log_batch_takes_a_record(records: Seq<Seq<u8>>, cap: int)
    requires
        records.len() > 0,
    ensures
        batch_count(records, cap, 0) > 0,
{
    assert(records.take(0) =~= seq![]);
    lemma_batch_count_grows(records, cap, 1);
}

proof fn lemma_batch_count_grows(records: Seq<Seq<u8>>, cap: int, i: nat)
    ensures
        batch_count(records, cap, i) >= i,
    decreases records.len() - i,
{
    if i < records.len() && fits_batch(records, cap, i as int) {
        lemma_batch_count_grows(records, cap, i + 1);
    }
}

/// Events never take a consumer back behind the end of the shard: once the end is reached, no
/// attempt follows.
pub proof fn reaching_the_end_stops_the_attempts(reached: Position, event: StreamEvent)
    requires
        event is Eof ==> event->eof_position is Eof,
    ensures
        event is Eof || event is ShardNotFound ==> after_event(reached, event).0 is Eof
            && !after_event(reached, event).1,
{
}

/// The error of a drain names the ingester whose log it was, and ends with the error of the log.
pub proof fn drain_errors_name_the_ingester(ingester_id: Seq<char>, error: WalError)
    ensures
        wal::error_text(error).is_suffix_of(drain_failure(ingester_id, error)),
        exists|i: int|
            0 <= i <= drain_failure(ingester_id, error).len() - ingester_id.len()
                && #[trigger] drain_failure(ingester_id, error).subrange(i, i + ingester_id.len())
                == ingester_id,
{
    let text = drain_failure(ingester_id, error);
    let tail = wal::error_text(error);
    assert(text.subrange(text.len() - tail.len(), text.len() as int) =~= tail);
    let i = "failed to drain shard from the object WAL of ingester `"@.len() as int;
    assert(text.subrange(i, i + ingester_id.len()) =~= ingester_id);
}

} // verus!
