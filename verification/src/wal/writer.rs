//! The WAL writer: buffers records in memory and flushes them as one object per flush.
//!
//! ```text
//! append(queue, pos, records) --> current object (in memory) --+
//!                                                              | flush: interval | size | explicit
//!                                                              v
//!                                  encode --> put_if_absent(<ingester>/wal/<wal_id>.wal)
//!                                                              |
//!                                     Ok --> durable_wal_id = wal_id --> wake waiters
//!                                     AlreadyExists --> ours? (retried PUT) --> same as Ok
//!                                                   `-> not ours --> FENCED, fail everything
//!                                     other error --> retry with backoff
//! ```
//!
//! Objects are written one after the other, so object ids are assigned in append order and the
//! durable id moves monotonically. Group commit is implicit: every record appended between two
//! flushes shares one PUT.

use bytes::Bytes;
use vstd::prelude::*;

use super::format::{encode_wal_object, WalBlock, WalFooter, WalObjectHeader};
#[allow(unused_imports)]
use super::layout;
use super::layout::{BlockModel, HeaderModel};
use super::{StorageErrorKind, WalError, WalId, WalResult};
#[allow(unused_imports)]
use crate::buffer;
use crate::buffer::buffers_len;
use crate::text::same_text;
#[allow(unused_imports)]
use crate::wal;

verus! {

/// Writer configuration.
#[derive(Clone, Copy, Debug, PartialEq, Eq, Structural)]
pub struct WalWriterConfig {
    /// Maximum time records wait in memory before being written, in milliseconds.
    pub flush_interval_millis: u64,
    /// Write as soon as the current object reaches this size.
    pub flush_num_bytes: u64,
    /// Reject appends once this many bytes are buffered and not yet durable.
    pub max_buffered_num_bytes: u64,
}

impl Default for WalWriterConfig {
    fn default() -> (config: Self)
        ensures
            config.flush_interval_millis == 250,
            config.flush_num_bytes == 8 * 1024 * 1024,
            config.max_buffered_num_bytes == 256 * 1024 * 1024,
    {
        WalWriterConfig {
            flush_interval_millis: 250,
            flush_num_bytes: 8388608,
            max_buffered_num_bytes: 268435456,
        }
    }
}

/// Snapshot of the writer state.
#[derive(Clone, Debug)]
pub struct WalWriterStatus {
    /// Id of the last object written durably. Zero if none yet.
    pub durable_wal_id: WalId,
    /// Bytes buffered in memory and not yet durable (records only, before encoding).
    pub buffered_num_bytes: u64,
    /// Number of records buffered in memory and not yet durable.
    pub buffered_num_records: u64,
    /// Terminal error, if the writer stopped.
    pub closed_reason: Option<WalError>,
}

/// What the durability watch channel carries.
#[derive(Clone, Debug)]
pub enum Durability {
    /// Objects up to this id are durable.
    Flushed(WalId),
    /// The writer stopped; nothing further will become durable.
    Failed(WalError),
}

impl WalError {
    /// An error that says the same.
    pub fn same(&self) -> (same: WalError)
        ensures
            same == *self,
    {
        match self {
            WalError::Fenced => WalError::Fenced,
            WalError::BufferFull => WalError::BufferFull,
            WalError::Closed => WalError::Closed,
            WalError::Corrupted(message) => WalError::Corrupted(message.clone()),
            WalError::Storage(error) => WalError::Storage(
                super::StorageError { kind: error.kind, message: error.message.clone() },
            ),
        }
    }
}

// ---- The object being assembled ----

/// Where a list of blocks can be extended for a queue: at the last block of the queue that holds
/// records.
pub open spec fn last_block_of(blocks: Seq<BlockModel>, queue_id: Seq<char>) -> Option<int>
    decreases blocks.len(),
{
    if blocks.len() == 0 {
        None
    } else if blocks.last().queue_id == queue_id && blocks.last().records.len() > 0 {
        Some(blocks.len() - 1)
    } else {
        last_block_of(blocks.drop_last(), queue_id)
    }
}

/// The blocks with records appended to a queue: the last block of the queue grows if the records
/// follow it, else a block is added.
pub open spec fn with_records(
    blocks: Seq<BlockModel>,
    queue_id: Seq<char>,
    first_position: u64,
    records: Seq<Seq<u8>>,
) -> Seq<BlockModel> {
    match last_block_of(blocks, queue_id) {
        Some(i) => if blocks[i].first_position + blocks[i].records.len() == first_position {
            blocks.update(i, BlockModel { records: blocks[i].records + records, ..blocks[i] })
        } else {
            blocks.push(BlockModel { queue_id, first_position, records })
        },
        None => blocks.push(BlockModel { queue_id, first_position, records }),
    }
}

/// The records of a queue that a list of blocks holds, with their positions, in order.
pub open spec fn queue_records(blocks: Seq<BlockModel>, queue_id: Seq<char>) -> Seq<(int, Seq<u8>)>
    decreases blocks.len(),
{
    if blocks.len() == 0 {
        seq![]
    } else {
        let before = queue_records(blocks.drop_last(), queue_id);
        if blocks.last().queue_id == queue_id {
            before + positioned(blocks.last().first_position as int, blocks.last().records)
        } else {
            before
        }
    }
}

/// Records at consecutive positions.
pub open spec fn positioned(first: int, records: Seq<Seq<u8>>) -> Seq<(int, Seq<u8>)> {
    Seq::new(records.len(), |i: int| (first + i, records[i]))
}

/// Appending adds exactly the records to the queue, behind what the queue already held, and leaves
/// every other queue alone.
pub proof fn append_adds_the_records(
    blocks: Seq<BlockModel>,
    queue_id: Seq<char>,
    first_position: u64,
    records: Seq<Seq<u8>>,
    other: Seq<char>,
)
    ensures
        queue_records(with_records(blocks, queue_id, first_position, records), queue_id)
            == queue_records(blocks, queue_id) + positioned(first_position as int, records),
        other != queue_id ==> queue_records(
            with_records(blocks, queue_id, first_position, records),
            other,
        ) == queue_records(blocks, other),
{
    let added = with_records(blocks, queue_id, first_position, records);
    last_block_is_of_the_queue(blocks, queue_id);
    match last_block_of(blocks, queue_id) {
        Some(i) => {
            if blocks[i].first_position + blocks[i].records.len() == first_position {
                lemma_growing_a_block(blocks, i, records, queue_id);
                lemma_growing_a_block(blocks, i, records, other);
            } else {
                assert(added.drop_last() =~= blocks);
            }
        },
        None => {
            assert(added.drop_last() =~= blocks);
        },
    }
}

/// The last block of a queue is of that queue, holds records, and has no other such block behind it.
pub proof fn last_block_is_of_the_queue(blocks: Seq<BlockModel>, queue_id: Seq<char>)
    ensures
        last_block_of(blocks, queue_id) matches Some(i) ==> 0 <= i < blocks.len()
            && blocks[i].queue_id == queue_id && blocks[i].records.len() > 0 && forall|j: int|
            i < j < blocks.len() ==> (#[trigger] blocks[j]).queue_id != queue_id
                || blocks[j].records.len() == 0,
    decreases blocks.len(),
{
    if blocks.len() > 0 {
        last_block_is_of_the_queue(blocks.drop_last(), queue_id);
        if !(blocks.last().queue_id == queue_id && blocks.last().records.len() > 0) {
            match last_block_of(blocks, queue_id) {
                Some(i) => {
                    assert forall|j: int| i < j < blocks.len() implies (
                    #[trigger] blocks[j]).queue_id != queue_id || blocks[j].records.len() == 0 by {
                        if j < blocks.len() - 1 {
                            assert(blocks.drop_last()[j] == blocks[j]);
                        }
                    }
                },
                None => {},
            }
        }
    }
}

proof fn lemma_growing_a_block(
    blocks: Seq<BlockModel>,
    i: int,
    records: Seq<Seq<u8>>,
    queue_id: Seq<char>,
)
    requires
        0 <= i < blocks.len(),
        forall|j: int|
            i < j < blocks.len() ==> (#[trigger] blocks[j]).queue_id != blocks[i].queue_id
                || blocks[j].records.len() == 0,
    ensures
        ({
            let grown = blocks.update(
                i,
                BlockModel { records: blocks[i].records + records, ..blocks[i] },
            );
            queue_records(grown, queue_id) == if queue_id == blocks[i].queue_id {
                queue_records(blocks, queue_id) + positioned(
                    blocks[i].first_position + blocks[i].records.len(),
                    records,
                )
            } else {
                queue_records(blocks, queue_id)
            }
        }),
    decreases blocks.len(),
{
    let block = BlockModel { records: blocks[i].records + records, ..blocks[i] };
    let grown = blocks.update(i, block);
    if i == blocks.len() - 1 {
        assert(grown.drop_last() =~= blocks.drop_last());
        let first = blocks[i].first_position as int;
        let old_part = positioned(first, blocks[i].records);
        let new_part = positioned(first + blocks[i].records.len(), records);
        assert(positioned(first, block.records) =~= old_part + new_part);
        let before = queue_records(blocks.drop_last(), queue_id);
        assert(before + (old_part + new_part) =~= before + old_part + new_part);
    } else {
        let shorter = blocks.drop_last();
        assert forall|j: int| i < j < shorter.len() implies (#[trigger] shorter[j]).queue_id
            != shorter[i].queue_id || shorter[j].records.len() == 0 by {
            assert(shorter[j] == blocks[j]);
        }
        lemma_growing_a_block(shorter, i, records, queue_id);
        assert(grown.drop_last() =~= shorter.update(i, block));
        let last = blocks.last();
        assert(blocks[blocks.len() - 1] == last);
        let tail = positioned(
            last.first_position as int,
            last.records,
        );
        if last.queue_id == queue_id && queue_id == blocks[i].queue_id {
            assert(tail =~= seq![]);
            let grown_part = queue_records(shorter.update(i, block), queue_id);
            assert(grown_part + tail =~= grown_part);
            assert(queue_records(shorter, queue_id) + tail =~= queue_records(shorter, queue_id));
        }
    }
}

/// Whether the positions of a block are numbers of its queue.
pub open spec fn block_positions_fit(block: BlockModel) -> bool {
    block.first_position + block.records.len() <= u64::MAX
}

/// Records buffered for the object currently being assembled.
pub struct OpenObject {
    pub wal_id: WalId,
    pub blocks: Vec<WalBlock>,
    pub num_bytes: u64,
    pub num_records: u64,
}

impl OpenObject {
    /// What the blocks hold.
    pub open spec fn models(self) -> Seq<BlockModel> {
        wal::format::block_models(self.blocks@)
    }

    /// Whether the positions of every block are numbers of its queue.
    pub open spec fn well_formed(self) -> bool {
        forall|i: int|
            0 <= i < self.models().len() ==> block_positions_fit(#[trigger] self.models()[i])
    }

    pub fn new(wal_id: WalId) -> (object: Self)
        ensures
            object.wal_id == wal_id,
            object.models() == Seq::<BlockModel>::empty(),
            object.num_bytes == 0,
            object.num_records == 0,
    {
        let object = OpenObject { wal_id, blocks: Vec::new(), num_bytes: 0, num_records: 0 };
        assert(object.models() =~= seq![]);
        object
    }

    pub fn is_empty(&self) -> (empty: bool)
        ensures
            empty == (self.models().len() == 0),
    {
        self.blocks.len() == 0
    }

    pub fn append_queue_marker(&mut self, queue_id: &str)
        requires
            old(self).well_formed(),
        ensures
            final(self).well_formed(),
            final(self).models() == old(self).models().push(
                BlockModel { queue_id: queue_id@, first_position: 0, records: seq![] },
            ),
            final(self).wal_id == old(self).wal_id,
            final(self).num_bytes == old(self).num_bytes,
            final(self).num_records == old(self).num_records,
    {
        let marker = WalBlock::queue_marker(queue_id.to_owned());
        let ghost model = marker@;
        self.blocks.push(marker);
        assert(self.models() =~= old(self).models().push(model));
        assert forall|i: int| 0 <= i < self.models().len() implies block_positions_fit(
            #[trigger] self.models()[i],
        ) by {
            if i < old(self).models().len() {
                assert(block_positions_fit(old(self).models()[i]));
            }
        }
    }

    fn last_block_index(&self, queue_id: &str) -> (index: Option<usize>)
        ensures
            match index {
                Some(index) => last_block_of(self.models(), queue_id@) == Some(index as int),
                None => last_block_of(self.models(), queue_id@) is None,
            },
    {
        let mut i: usize = self.blocks.len();
        assert(self.models().take(i as int) =~= self.models());
        while i > 0
            invariant
                i <= self.blocks.len(),
                last_block_of(self.models(), queue_id@) == last_block_of(
                    self.models().take(i as int),
                    queue_id@,
                ),
            decreases i,
        {
            i = i - 1;
            let ghost part = self.models().take(i + 1);
            assert(part.drop_last() =~= self.models().take(i as int));
            assert(part.last() == self.blocks@[i as int]@);
            if same_text(self.blocks[i].queue_id.as_str(), queue_id)
                && !self.blocks[i].is_queue_marker() {
                return Some(i);
            }
        }
        None
    }

    pub fn append(&mut self, queue_id: &str, first_position: u64, records: Vec<Bytes>)
        requires
            old(self).well_formed(),
            first_position + records@.len() <= u64::MAX,
            old(self).num_bytes + buffer::total_len(buffer::contents(records@)) <= u64::MAX,
            old(self).num_records + records@.len() <= u64::MAX,
        ensures
            final(self).well_formed(),
            final(self).models() == with_records(
                old(self).models(),
                queue_id@,
                first_position,
                buffer::contents(records@),
            ),
            final(self).wal_id == old(self).wal_id,
            final(self).num_bytes == old(self).num_bytes + buffer::total_len(
                buffer::contents(records@),
            ),
            final(self).num_records == old(self).num_records + records@.len(),
    {
        let ghost before = self.models();
        let ghost added = buffer::contents(records@);
        let num_bytes: u64 = buffers_len(&records);
        self.num_bytes = self.num_bytes + num_bytes;
        self.num_records = self.num_records + records.len() as u64;
        assert(self.models() == before);
        proof {
            last_block_is_of_the_queue(before, queue_id@);
        }
        match self.last_block_index(queue_id) {
            Some(index) => {
                assert(before[index as int] == self.blocks@[index as int]@);
                assert(block_positions_fit(before[index as int]));
                let next: u64 = self.blocks[index].last_position() + 1;
                if next == first_position {
                    let ghost old_records = buffer::contents(self.blocks@[index as int].records@);
                    let mut records = records;
                    self.blocks[index].records.append(&mut records);
                    proof {
                        assert(buffer::contents(self.blocks@[index as int].records@) =~= old_records
                            + added);
                        assert(self.models() =~= with_records(
                            before,
                            queue_id@,
                            first_position,
                            added,
                        ));
                        assert forall|i: int| 0 <= i < self.models().len() implies
                            block_positions_fit(#[trigger] self.models()[i]) by {
                            assert(block_positions_fit(before[i]));
                        }
                    }
                    return ;
                }
            },
            None => {},
        }
        let block = WalBlock { queue_id: queue_id.to_owned(), first_position, records };
        let ghost model = block@;
        self.blocks.push(block);
        assert(self.models() =~= before.push(model));
        assert forall|i: int| 0 <= i < self.models().len() implies block_positions_fit(
            #[trigger] self.models()[i],
        ) by {
            if i < before.len() {
                assert(block_positions_fit(before[i]));
            }
        }
    }
}

// ---- The writer ----

/// An object on its way to the storage.
pub struct FrozenObject {
    pub header: WalObjectHeader,
    pub blocks: Vec<WalBlock>,
    pub num_bytes: u64,
    pub num_records: u64,
}

/// An encoded object on its way to the storage.
pub struct EncodedObject {
    pub header: WalObjectHeader,
    pub bytes: Bytes,
    pub num_bytes: u64,
    pub num_records: u64,
}

/// What a writer holds.
pub struct WriterState {
    pub current: OpenObject,
    /// Bytes of the objects being written, if a flush is in flight.
    pub in_flight_num_bytes: u64,
    pub in_flight_num_records: u64,
    pub durable_wal_id: WalId,
    pub closed_reason: Option<WalError>,
}

impl WriterState {
    /// Bytes buffered and not yet durable.
    pub open spec fn buffered_bytes(self) -> int {
        self.current.num_bytes + self.in_flight_num_bytes
    }

    /// Records buffered and not yet durable.
    pub open spec fn buffered_records(self) -> int {
        self.current.num_records + self.in_flight_num_records
    }

    /// What holds of every state of a writer.
    pub open spec fn well_formed(self) -> bool {
        &&& self.current.well_formed()
        &&& self.buffered_bytes() <= u64::MAX
        &&& self.buffered_records() <= u64::MAX
    }

    /// A writer whose first object gets id `first_wal_id`.
    pub fn new(first_wal_id: WalId) -> (state: Self)
        ensures
            state.well_formed(),
            state.current.wal_id == first_wal_id,
            state.current.models() == Seq::<BlockModel>::empty(),
            state.buffered_bytes() == 0,
            state.buffered_records() == 0,
            state.in_flight_num_bytes == 0,
            state.in_flight_num_records == 0,
            state.durable_wal_id.0 == if first_wal_id.0 == 0 {
                0
            } else {
                first_wal_id.0 - 1
            },
            state.closed_reason is None,
    {
        WriterState {
            current: OpenObject::new(first_wal_id),
            in_flight_num_bytes: 0,
            in_flight_num_records: 0,
            durable_wal_id: WalId(first_wal_id.0.saturating_sub(1)),
            closed_reason: None,
        }
    }

    /// Buffers `records` for `queue_id` at consecutive positions starting at `first_position`.
    /// Returns the id of the object that will contain them, and whether that object is now large
    /// enough to be written at once.
    ///
    /// A single call is written atomically into one object. Fails with
    /// [`WalError::BufferFull`] when the unflushed bytes exceed the configured maximum, and with
    /// the reason the writer stopped for when it did.
    pub fn append(
        &mut self,
        config: &WalWriterConfig,
        queue_id: &str,
        first_position: u64,
        records: Vec<Bytes>,
    ) -> (appended: WalResult<(WalId, bool)>)
        requires
            old(self).well_formed(),
            records@.len() > 0,
            first_position + records@.len() <= u64::MAX,
            buffer::total_len(buffer::contents(records@)) <= u64::MAX,
            old(self).buffered_records() + records@.len() <= u64::MAX,
        ensures
            final(self).well_formed(),
            ({
                let num_bytes = buffer::total_len(buffer::contents(records@));
                match old(self).closed_reason {
                    Some(reason) => appended == Err::<(WalId, bool), WalError>(reason)
                        && *final(self) == *old(self),
                    None => if old(self).buffered_bytes() + num_bytes
                        > config.max_buffered_num_bytes {
                        appended == Err::<(WalId, bool), WalError>(WalError::BufferFull)
                            && *final(self) == *old(self)
                    } else {
                        &&& appended == Ok::<(WalId, bool), WalError>(
                            (
                                old(self).current.wal_id,
                                final(self).current.num_bytes >= config.flush_num_bytes,
                            ),
                        )
                        &&& final(self).current.models() == with_records(
                            old(self).current.models(),
                            queue_id@,
                            first_position,
                            buffer::contents(records@),
                        )
                        &&& final(self).current.wal_id == old(self).current.wal_id
                        &&& final(self).current.num_bytes == old(self).current.num_bytes + num_bytes
                        &&& final(self).current.num_records == old(self).current.num_records
                            + records@.len()
                        &&& final(self).same_beside_current(*old(self))
                    },
                }
            }),
    {
        let num_bytes: u64 = buffers_len(&records);
        match &self.closed_reason {
            Some(reason) => {
                return Err(reason.same());
            },
            None => {},
        }
        let buffered: u64 = self.current.num_bytes + self.in_flight_num_bytes;
        if num_bytes > config.max_buffered_num_bytes || buffered > config.max_buffered_num_bytes
            - num_bytes {
            return Err(WalError::BufferFull);
        }
        self.current.append(queue_id, first_position, records);
        Ok((self.current.wal_id, self.current.num_bytes >= config.flush_num_bytes))
    }

    /// Whether two states agree on everything but the object being assembled.
    pub open spec fn same_beside_current(self, other: WriterState) -> bool {
        &&& self.in_flight_num_bytes == other.in_flight_num_bytes
        &&& self.in_flight_num_records == other.in_flight_num_records
        &&& self.durable_wal_id == other.durable_wal_id
        &&& self.closed_reason == other.closed_reason
    }

    /// Records that `queue_id` exists (a queue marker, see [`WalBlock::queue_marker`]). Returns
    /// the id of the object that will contain the marker.
    pub fn append_queue_marker(&mut self, queue_id: &str) -> (appended: WalResult<WalId>)
        requires
            old(self).well_formed(),
        ensures
            final(self).well_formed(),
            match old(self).closed_reason {
                Some(reason) => appended == Err::<WalId, WalError>(reason) && *final(self) == *old(
                    self,
                ),
                None => {
                    &&& appended == Ok::<WalId, WalError>(old(self).current.wal_id)
                    &&& final(self).current.models() == old(self).current.models().push(
                        BlockModel { queue_id: queue_id@, first_position: 0, records: seq![] },
                    )
                    &&& final(self).current.wal_id == old(self).current.wal_id
                    &&& final(self).current.num_bytes == old(self).current.num_bytes
                    &&& final(self).current.num_records == old(self).current.num_records
                    &&& final(self).same_beside_current(*old(self))
                },
            },
    {
        match &self.closed_reason {
            Some(reason) => {
                return Err(reason.same());
            },
            None => {},
        }
        self.current.append_queue_marker(queue_id);
        Ok(self.current.wal_id)
    }

    /// The object that has to become durable for everything buffered so far to be durable: the
    /// current one, or the one before it when nothing new is buffered.
    pub fn flush_target(&self) -> (target: WalResult<WalId>)
        requires
            self.current.wal_id.0 > 0,
        ensures
            match self.closed_reason {
                Some(reason) => target == Err::<WalId, WalError>(reason),
                None => target matches Ok(id) && id.0 == if self.current.models().len() == 0 {
                    self.current.wal_id.0 - 1
                } else {
                    self.current.wal_id.0 as int
                },
            },
    {
        match &self.closed_reason {
            Some(reason) => {
                return Err(reason.same());
            },
            None => {},
        }
        if self.current.is_empty() {
            Ok(WalId(self.current.wal_id.0 - 1))
        } else {
            Ok(self.current.wal_id)
        }
    }

    pub fn status(&self) -> (status: WalWriterStatus)
        requires
            self.well_formed(),
        ensures
            status.durable_wal_id == self.durable_wal_id,
            status.buffered_num_bytes == self.buffered_bytes(),
            status.buffered_num_records == self.buffered_records(),
            status.closed_reason == self.closed_reason,
    {
        WalWriterStatus {
            durable_wal_id: self.durable_wal_id,
            buffered_num_bytes: self.current.num_bytes + self.in_flight_num_bytes,
            buffered_num_records: self.current.num_records + self.in_flight_num_records,
            closed_reason: match &self.closed_reason {
                Some(reason) => Some(reason.same()),
                None => None,
            },
        }
    }

    /// Takes the current object out to be written, and starts the next one. Nothing is taken when
    /// nothing is buffered.
    pub fn freeze(&mut self, ingester_id: &str, epoch: u64, generation_id: u64) -> (frozen: Option<
        FrozenObject,
    >)
        requires
            old(self).well_formed(),
            old(self).current.wal_id.0 < u64::MAX,
        ensures
            final(self).well_formed(),
            final(self).buffered_bytes() == old(self).buffered_bytes(),
            final(self).buffered_records() == old(self).buffered_records(),
            final(self).durable_wal_id == old(self).durable_wal_id,
            final(self).closed_reason == old(self).closed_reason,
            match frozen {
                None => old(self).current.models().len() == 0 && *final(self) == *old(self),
                Some(frozen) => {
                    &&& old(self).current.models().len() > 0
                    &&& frozen.header@ == (HeaderModel {
                        ingester_id: ingester_id@,
                        epoch,
                        generation_id,
                        wal_id: old(self).current.wal_id.0,
                        is_fence: false,
                    })
                    &&& wal::format::block_models(frozen.blocks@) == old(self).current.models()
                    &&& frozen.num_bytes == old(self).current.num_bytes
                    &&& frozen.num_records == old(self).current.num_records
                    &&& final(self).current.wal_id.0 == old(self).current.wal_id.0 + 1
                    &&& final(self).current.models() == Seq::<BlockModel>::empty()
                    &&& final(self).in_flight_num_bytes == old(self).in_flight_num_bytes
                        + frozen.num_bytes
                    &&& final(self).in_flight_num_records == old(self).in_flight_num_records
                        + frozen.num_records
                },
            },
    {
        if self.current.is_empty() {
            return None;
        }
        let mut frozen = OpenObject::new(self.current.wal_id.next());
        std::mem::swap(&mut frozen, &mut self.current);
        self.in_flight_num_bytes = self.in_flight_num_bytes + frozen.num_bytes;
        self.in_flight_num_records = self.in_flight_num_records + frozen.num_records;
        let header = WalObjectHeader {
            ingester_id: ingester_id.to_owned(),
            epoch,
            generation_id,
            wal_id: frozen.wal_id,
            is_fence: false,
        };
        Some(
            FrozenObject {
                header,
                blocks: frozen.blocks,
                num_bytes: frozen.num_bytes,
                num_records: frozen.num_records,
            },
        )
    }

    /// Takes note that an object was written, and says what to tell the waiters.
    pub fn uploaded(&mut self, wal_id: WalId, num_bytes: u64, num_records: u64) -> (event: Durability)
        requires
            old(self).well_formed(),
            num_bytes <= old(self).in_flight_num_bytes,
            num_records <= old(self).in_flight_num_records,
        ensures
            final(self).well_formed(),
            final(self).durable_wal_id == wal_id,
            final(self).in_flight_num_bytes == old(self).in_flight_num_bytes - num_bytes,
            final(self).in_flight_num_records == old(self).in_flight_num_records - num_records,
            final(self).current == old(self).current,
            final(self).closed_reason == old(self).closed_reason,
            event == Durability::Flushed(wal_id),
    {
        self.durable_wal_id = wal_id;
        self.in_flight_num_bytes = self.in_flight_num_bytes - num_bytes;
        self.in_flight_num_records = self.in_flight_num_records - num_records;
        Durability::Flushed(wal_id)
    }

    /// Marks the writer closed with `error`, unless it is closed already.
    pub fn close(&mut self, error: &WalError)
        ensures
            final(self).current == old(self).current,
            final(self).in_flight_num_bytes == old(self).in_flight_num_bytes,
            final(self).in_flight_num_records == old(self).in_flight_num_records,
            final(self).durable_wal_id == old(self).durable_wal_id,
            final(self).closed_reason == reason_after_close(old(self).closed_reason, *error),
    {
        if self.closed_reason.is_none() {
            self.closed_reason = Some(error.same());
        }
    }

    /// Closes the writer when its flusher stops. Waiters are told when anything is left that will
    /// never become durable, and always when the log was taken over.
    pub fn flusher_stopped(&mut self, error: &WalError) -> (event: Option<Durability>)
        ensures
            final(self).current == old(self).current,
            final(self).in_flight_num_bytes == old(self).in_flight_num_bytes,
            final(self).in_flight_num_records == old(self).in_flight_num_records,
            final(self).durable_wal_id == old(self).durable_wal_id,
            final(self).closed_reason == reason_after_close(old(self).closed_reason, *error),
            event == if old(self).current.models().len() > 0 || old(self).in_flight_num_bytes > 0
                || *error == WalError::Fenced {
                Some(Durability::Failed(*error))
            } else {
                None
            },
    {
        self.close(error);
        let pending = !self.current.is_empty() || self.in_flight_num_bytes > 0;
        if pending || matches!(error, WalError::Fenced) {
            Some(Durability::Failed(error.same()))
        } else {
            None
        }
    }

    /// Closes the writer when an upload failed for good. Waiters are always told.
    pub fn uploader_stopped(&mut self, error: &WalError) -> (event: Durability)
        ensures
            final(self).current == old(self).current,
            final(self).in_flight_num_bytes == old(self).in_flight_num_bytes,
            final(self).in_flight_num_records == old(self).in_flight_num_records,
            final(self).durable_wal_id == old(self).durable_wal_id,
            final(self).closed_reason == reason_after_close(old(self).closed_reason, *error),
            event == Durability::Failed(*error),
    {
        self.close(error);
        Durability::Failed(error.same())
    }
}

/// Encodes a frozen object. The object that is written reads back as what was frozen.
pub fn encode_frozen(frozen: FrozenObject) -> (encoded: EncodedObject)
    requires
        wal::format::encodable(frozen.header@, wal::format::block_models(frozen.blocks@)),
    ensures
        encoded.header@ == frozen.header@,
        encoded.num_bytes == frozen.num_bytes,
        encoded.num_records == frozen.num_records,
        buffer::bytes_content(encoded.bytes) == layout::object_bytes(
            frozen.header@,
            wal::format::block_models(frozen.blocks@),
        ),
        wal::roundtrip::object_fits(frozen.header@, wal::format::block_models(frozen.blocks@))
            ==> layout::read_object(buffer::bytes_content(encoded.bytes)) == Ok::<
            _,
            layout::Fault,
        >(
            (
                layout::written_header(frozen.header@, wal::format::block_models(frozen.blocks@)),
                wal::format::block_models(frozen.blocks@),
            ),
        ),
{
    let bytes = encode_wal_object(&frozen.header, frozen.blocks.as_slice());
    EncodedObject {
        header: frozen.header,
        bytes,
        num_bytes: frozen.num_bytes,
        num_records: frozen.num_records,
    }
}

/// Whether a durability event settles the wait for an object: it is durable, or will never be.
pub fn durability_reached(event: &Durability, wal_id: WalId) -> (reached: Option<WalResult<()>>)
    ensures
        reached == match *event {
            Durability::Flushed(durable) => if durable.0 >= wal_id.0 {
                Some(Ok::<(), WalError>(()))
            } else {
                None
            },
            Durability::Failed(error) => Some(Err::<(), WalError>(error)),
        },
        reached == reached_by(*event, wal_id),
{
    match event {
        Durability::Flushed(durable) => if durable.0 >= wal_id.0 {
            Some(Ok(()))
        } else {
            None
        },
        Durability::Failed(error) => Some(Err(error.same())),
    }
}

/// What to do about the outcome of a conditional PUT.
#[derive(Clone, Copy, Debug, PartialEq, Eq, Structural)]
pub enum PutStep {
    /// The object is written.
    Written,
    /// The slot is taken: read the header of what is there (see [`disambiguate_existing`]).
    Disambiguate,
    /// Wait that many milliseconds and try again; the second number is the wait after the next
    /// failure.
    Retry { wait_millis: u64, next_backoff_millis: u64 },
}

/// The wait before the first retry of a PUT, in milliseconds.
pub const FIRST_PUT_BACKOFF_MILLIS: u64 = 50;

/// The longest wait between two tries of a PUT, in milliseconds.
pub const MAX_PUT_BACKOFF_MILLIS: u64 = 5000;

/// The wait that follows a wait, in milliseconds.
pub open spec fn next_put_backoff(backoff_millis: u64) -> u64 {
    if 2 * backoff_millis > MAX_PUT_BACKOFF_MILLIS {
        MAX_PUT_BACKOFF_MILLIS
    } else {
        (2 * backoff_millis) as u64
    }
}

/// Decides what follows a conditional PUT that ended with the given storage error, if any.
/// Transient errors are retried forever, with the wait doubling up to a limit.
pub fn after_put(error: Option<StorageErrorKind>, backoff_millis: u64) -> (step: PutStep)
    requires
        backoff_millis <= MAX_PUT_BACKOFF_MILLIS,
    ensures
        step == match error {
            None => PutStep::Written,
            Some(StorageErrorKind::AlreadyExists) => PutStep::Disambiguate,
            Some(_) => PutStep::Retry {
                wait_millis: backoff_millis,
                next_backoff_millis: next_put_backoff(backoff_millis),
            },
        },
        step == put_step(error, backoff_millis),
{
    match error {
        None => PutStep::Written,
        Some(StorageErrorKind::AlreadyExists) => PutStep::Disambiguate,
        Some(_) => {
            let doubled: u64 = backoff_millis * 2;
            PutStep::Retry {
                wait_millis: backoff_millis,
                next_backoff_millis: if doubled > MAX_PUT_BACKOFF_MILLIS {
                    MAX_PUT_BACKOFF_MILLIS
                } else {
                    doubled
                },
            }
        },
    }
}

/// What a writer makes of an object that stands in the slot of its own.
pub open spec fn disambiguated(ours: HeaderModel, found: HeaderModel) -> WalResult<()> {
    if found == ours {
        Ok(())
    } else {
        Err(WalError::Fenced)
    }
}

/// Tells an object of our own (a previous attempt landed but the response was lost) from that of
/// another writer, which took the slot: we are fenced.
pub fn disambiguate_existing(ours: &WalObjectHeader, found: &WalFooter) -> (outcome: WalResult<()>)
    ensures
        outcome == disambiguated(ours@, found@.header),
{
    if found.header.same_as(ours) {
        Ok(())
    } else {
        Err(WalError::Fenced)
    }
}

/// Why the flusher woke up.
#[derive(Clone, Copy, Debug, PartialEq, Eq, Structural)]
pub enum FlusherWake {
    /// The flush interval elapsed, or a flush was asked for.
    Flush,
    /// The writer is shutting down.
    Shutdown,
}

/// What the flusher does next.
#[derive(Clone, Copy, Debug, PartialEq, Eq, Structural)]
pub enum FlusherAction {
    /// Freeze, encode and hand over the current object, then sleep on.
    Flush,
    /// Flush one last time, wait for the uploads, and close the writer.
    FlushAndClose,
    /// Wait for the uploads and stop: the writer is closed already.
    Stop,
}

/// Decides what the flusher does when it wakes up.
pub fn flusher_action(wake: FlusherWake, closed: bool) -> (action: FlusherAction)
    ensures
        action == match wake {
            FlusherWake::Shutdown => FlusherAction::FlushAndClose,
            FlusherWake::Flush => if closed {
                FlusherAction::Stop
            } else {
                FlusherAction::Flush
            },
        },
        action == action_on(wake, closed),
{
    match wake {
        FlusherWake::Shutdown => FlusherAction::FlushAndClose,
        FlusherWake::Flush => if closed {
            FlusherAction::Stop
        } else {
            FlusherAction::Flush
        },
    }
}

// ---- Laws ----

/// The reason that a writer is closed for after it is closed with an error: the first one stays.
pub open spec fn reason_after_close(reason: Option<WalError>, error: WalError) -> Option<WalError> {
    match reason {
        Some(reason) => Some(reason),
        None => Some(error),
    }
}

/// The first reason for closing a writer stays the reason, however often it is closed.
pub proof fn first_closing_reason_stays(reason: Option<WalError>, first: WalError, second: WalError)
    ensures
        reason_after_close(reason_after_close(reason, first), second) == reason_after_close(
            reason,
            first,
        ),
        reason_after_close(reason, first) is Some,
{
}

/// The waits between the tries of a PUT never shrink and never pass the limit, and they double
/// until they reach it.
pub proof fn put_waits_grow_to_the_limit(backoff_millis: u64)
    requires
        0 < backoff_millis <= MAX_PUT_BACKOFF_MILLIS,
    ensures
        backoff_millis <= next_put_backoff(backoff_millis) <= MAX_PUT_BACKOFF_MILLIS,
        next_put_backoff(backoff_millis) == 2 * backoff_millis || next_put_backoff(backoff_millis)
            == MAX_PUT_BACKOFF_MILLIS,
{
}

/// Records are appended to the last block of their queue that holds records if they follow it without
/// a gap, and otherwise to a block of their own. Nothing else changes.
pub proof fn records_join_the_block_they_follow(
    blocks: Seq<BlockModel>,
    queue_id: Seq<char>,
    first_position: u64,
    records: Seq<Seq<u8>>,
    b: int,
)
    requires
        0 <= b < blocks.len(),
        blocks[b].queue_id == queue_id,
        blocks[b].records.len() > 0,
        forall|j: int|
            b < j < blocks.len() ==> (#[trigger] blocks[j]).queue_id != queue_id
                || blocks[j].records.len() == 0,
    ensures
        ({
            let after = with_records(blocks, queue_id, first_position, records);
            let follows = blocks[b].first_position + blocks[b].records.len() == first_position;
            &&& after.len() == if follows {
                blocks.len()
            } else {
                blocks.len() + 1
            }
            &&& forall|j: int|
                0 <= j < blocks.len() && !(follows && j == b) ==> #[trigger] after[j] == blocks[j]
            &&& follows ==> after[b].queue_id == queue_id && after[b].first_position
                == blocks[b].first_position && after[b].records == blocks[b].records + records
            &&& !follows ==> after.last().queue_id == queue_id && after.last().first_position
                == first_position && after.last().records == records
        }),
{
    last_block_is_of_the_queue(blocks, queue_id);
    lemma_last_block_is_found(blocks, queue_id, b);
    if let Some(i) = last_block_of(blocks, queue_id) {
        if i < b {
            assert(blocks[b].queue_id != queue_id || blocks[b].records.len() == 0);
        }
        if i > b {
            assert(blocks[i].queue_id != queue_id || blocks[i].records.len() == 0);
        }
    }
}

proof fn lemma_last_block_is_found(blocks: Seq<BlockModel>, queue_id: Seq<char>, b: int)
    requires
        0 <= b < blocks.len(),
        blocks[b].queue_id == queue_id,
        blocks[b].records.len() > 0,
    ensures
        last_block_of(blocks, queue_id) is Some,
    decreases blocks.len(),
{
    if b < blocks.len() - 1 {
        assert(blocks.drop_last()[b] == blocks[b]);
        lemma_last_block_is_found(blocks.drop_last(), queue_id, b);
    }
}

/// The first records of a queue in an object get a block of their own, behind the others.
pub proof fn first_records_open_a_block(
    blocks: Seq<BlockModel>,
    queue_id: Seq<char>,
    first_position: u64,
    records: Seq<Seq<u8>>,
)
    requires
        forall|j: int|
            0 <= j < blocks.len() ==> (#[trigger] blocks[j]).queue_id != queue_id
                || blocks[j].records.len() == 0,
    ensures
        ({
            let after = with_records(blocks, queue_id, first_position, records);
            &&& after.len() == blocks.len() + 1
            &&& forall|j: int| 0 <= j < blocks.len() ==> #[trigger] after[j] == blocks[j]
            &&& after.last().queue_id == queue_id
            &&& after.last().first_position == first_position
            &&& after.last().records == records
        }),
{
    last_block_is_of_the_queue(blocks, queue_id);
}

/// What is buffered is what the current object holds, and what is on its way to the storage.
pub proof fn buffered_is_current_and_in_flight(state: WriterState)
    ensures
        state.buffered_bytes() - state.in_flight_num_bytes == state.current.num_bytes,
        state.buffered_records() - state.in_flight_num_records == state.current.num_records,
{
}

/// What stays the same beside the current object.
pub proof fn only_the_current_object_differs(after: WriterState, before: WriterState)
    requires
        after.same_beside_current(before),
    ensures
        after.in_flight_num_bytes == before.in_flight_num_bytes,
        after.in_flight_num_records == before.in_flight_num_records,
        after.durable_wal_id == before.durable_wal_id,
        after.closed_reason == before.closed_reason,
{
}

/// The wait before a PUT is tried again doubles as long as the limit allows it.
pub proof fn put_waits_double_below_the_limit(backoff_millis: u64)
    requires
        2 * backoff_millis <= MAX_PUT_BACKOFF_MILLIS,
    ensures
        next_put_backoff(backoff_millis) == backoff_millis + backoff_millis,
{
}

/// A writer that finds its slot taken goes on only if the object there is its own, to the last field
/// of its header. Whatever else stands there has fenced it.
pub proof fn only_ones_own_object_is_no_fence(ours: HeaderModel, found: HeaderModel)
    ensures
        disambiguated(ours, found) is Ok <==> ours.ingester_id == found.ingester_id && ours.epoch
            == found.epoch && ours.generation_id == found.generation_id && ours.wal_id
            == found.wal_id && ours.is_fence == found.is_fence,
        disambiguated(ours, found) is Err ==> disambiguated(ours, found)->Err_0 == WalError::Fenced,
{
}

/// A writer is closed for the first reason that there is.
pub proof fn the_first_reason_closes(reason: Option<WalError>, error: WalError)
    ensures
        reason is None ==> reason_after_close(reason, error) == Some(error),
        reason is Some ==> reason_after_close(reason, error) == reason,
{
}

/// What an event says of the durability of an object.
pub open spec fn reached_by(event: Durability, wal_id: WalId) -> Option<WalResult<()>> {
    match event {
        Durability::Flushed(durable) => if durable.0 >= wal_id.0 {
            Some(Ok(()))
        } else {
            None
        },
        Durability::Failed(error) => Some(Err(error)),
    }
}

/// An object is durable exactly once it, or one behind it, was flushed. Until then it is waited for,
/// unless the writer fails, which ends the wait with its error.
pub proof fn objects_are_durable_once_flushed(durable: WalId, wal_id: WalId, error: WalError)
    ensures
        reached_by(Durability::Flushed(durable), wal_id) == Some(Ok::<(), WalError>(())) <==> wal_id.0
            <= durable.0,
        wal_id.0 > durable.0 ==> reached_by(Durability::Flushed(durable), wal_id) is None,
        reached_by(Durability::Failed(error), wal_id) == Some(Err::<(), WalError>(error)),
{
}

/// What follows a PUT of an object.
pub open spec fn put_step(error: Option<StorageErrorKind>, backoff_millis: u64) -> PutStep {
    match error {
        None => PutStep::Written,
        Some(StorageErrorKind::AlreadyExists) => PutStep::Disambiguate,
        Some(_) => PutStep::Retry {
            wait_millis: backoff_millis,
            next_backoff_millis: next_put_backoff(backoff_millis),
        },
    }
}

/// An object counts as written only if its PUT went through. One that finds its slot taken is told
/// apart from a fence, and every other failure is tried again after the wait, however often.
pub proof fn objects_are_written_by_their_put(
    error: Option<StorageErrorKind>,
    backoff_millis: u64,
)
    ensures
        put_step(error, backoff_millis) is Written <==> error is None,
        put_step(error, backoff_millis) is Disambiguate <==> error == Some(
            StorageErrorKind::AlreadyExists,
        ),
        put_step(error, backoff_millis) matches PutStep::Retry { wait_millis, .. } ==> wait_millis
            == backoff_millis,
{
}

/// What a flusher does when it wakes.
pub open spec fn action_on(wake: FlusherWake, closed: bool) -> FlusherAction {
    match (wake, closed) {
        (FlusherWake::Shutdown, _) => FlusherAction::FlushAndClose,
        (FlusherWake::Flush, true) => FlusherAction::Stop,
        (FlusherWake::Flush, false) => FlusherAction::Flush,
    }
}

/// A shutdown flushes what is buffered before it closes, and a writer that is closed flushes no more.
pub proof fn shutdowns_flush_first(wake: FlusherWake, closed: bool)
    ensures
        action_on(wake, closed) is FlushAndClose <==> wake is Shutdown,
        action_on(wake, closed) is Flush <==> wake is Flush && !closed,
{
}

} // verus!
