//! The handle the ingester holds on its object-store log.
//!
//! It ties together the pieces of [`crate::wal`] for one ingester:
//!
//! - **open**: collect the records that the previous incarnation of this node left behind;
//! - **append**: the persist path;
//! - **collection**: remember which queue positions each object holds, learn about truncations
//!   (shard positions published by indexers), and delete objects once every record in them is
//!   truncated.

use std::cmp::Ordering;

use bytes::Bytes;
use vstd::prelude::*;

#[allow(unused_imports)]
use crate::buffer;
use crate::id_map::IdMap;
#[allow(unused_imports)]
use crate::text;
use crate::text::{is_text_before, same_text};
use crate::text_map::TextMap;
use crate::wal::format::{WalBlock, WalObjectHeader};
use crate::wal::layout::BlockModel;
use crate::wal::reader::{replay_block, RecordModel, WalObjectRef, WalRecord};
#[allow(unused_imports)]
use crate::wal::reader;
use crate::wal::writer::{WalWriterConfig, WriterState};
#[allow(unused_imports)]
use crate::wal::writer;
use crate::wal::{StorageErrorKind, WalError, WalId, WalResult};
#[allow(unused_imports)]
use crate::wal;

verus! {

/// What pins an object, per queue: the position of its last record, or `None` for a queue marker
/// (pinned until the queue is deleted).
pub type Pins = Map<Seq<char>, Option<u64>>;

/// The later of two positions.
pub open spec fn later_of(a: u64, b: u64) -> u64 {
    if a >= b {
        a
    } else {
        b
    }
}

/// The pins of an object with records of a queue up to a position added. A queue marker stays what
/// pins its queue.
pub open spec fn with_record_pin(pins: Pins, queue_id: Seq<char>, last_position: u64) -> Pins {
    pins.insert(
        queue_id,
        if pins.contains_key(queue_id) {
            match pins[queue_id] {
                Some(last) => Some(later_of(last, last_position)),
                None => None,
            }
        } else {
            Some(last_position)
        },
    )
}

/// The pins of an object with a queue marker added, which takes the place of what the records of the
/// queue pinned.
pub open spec fn with_marker_pin(pins: Pins, queue_id: Seq<char>) -> Pins {
    pins.insert(queue_id, None)
}

fn add_record_pin(pins: &mut TextMap<Option<u64>>, queue_id: &str, last_position: u64)
    requires
        old(pins).well_formed(),
    ensures
        final(pins).well_formed(),
        final(pins)@ == with_record_pin(old(pins)@, queue_id@, last_position),
{
    let pin = match pins.get(queue_id) {
        Some(pin) => match pin {
            Some(last) => Some(
                if *last >= last_position {
                    *last
                } else {
                    last_position
                },
            ),
            None => None,
        },
        None => Some(last_position),
    };
    pins.insert(queue_id, pin);
}

/// What the collection of a log knows.
pub struct GcModel {
    /// Objects that may still hold live records, with what pins them.
    pub objects: Map<u64, Pins>,
    /// Highest truncated position (inclusive) per queue.
    pub truncated: Map<Seq<char>, u64>,
    /// Queues that no longer exist: their records never pin an object.
    pub deleted: Set<Seq<char>>,
}

impl GcModel {
    /// Whether a queue no longer needs its records up to a position.
    pub open spec fn covers(self, queue_id: Seq<char>, last_position: Option<u64>) -> bool {
        self.deleted.contains(queue_id) || (last_position is Some && self.truncated.contains_key(
            queue_id,
        ) && self.truncated[queue_id] >= last_position->0)
    }

    /// Whether no queue pins an object any more.
    pub open spec fn unpinned(self, id: u64) -> bool {
        forall|queue_id: Seq<char>| #[trigger]
            self.objects[id].contains_key(queue_id) ==> self.covers(
                queue_id,
                self.objects[id][queue_id],
            )
    }

    /// Whether an object can be deleted: it is durable, and every record in it is truncated.
    pub open spec fn can_collect(self, durable: u64, id: u64) -> bool {
        self.objects.contains_key(id) && id <= durable && self.unpinned(id)
    }

    /// The pins of an object, none for one that is not known.
    pub open spec fn pins_of(self, id: u64) -> Pins {
        if self.objects.contains_key(id) {
            self.objects[id]
        } else {
            Map::empty()
        }
    }
}

/// Bookkeeping of which objects of a log are still needed.
pub struct GcState {
    objects: IdMap<TextMap<Option<u64>>>,
    truncated_up_to: TextMap<u64>,
    deleted_queues: TextMap<()>,
}

impl View for GcState {
    type V = GcModel;

    closed spec fn view(&self) -> GcModel {
        GcModel {
            objects: self.objects@.map_values(|pins: TextMap<Option<u64>>| pins@),
            truncated: self.truncated_up_to@,
            deleted: self.deleted_queues@.dom(),
        }
    }
}

impl GcState {
    pub closed spec fn well_formed(self) -> bool {
        &&& self.objects.well_formed()
        &&& forall|id: u64| #[trigger]
            self.objects@.contains_key(id) ==> self.objects@[id].well_formed()
        &&& self.truncated_up_to.well_formed()
        &&& self.deleted_queues.well_formed()
    }

    pub fn new() -> (state: Self)
        ensures
            state.well_formed(),
            state@.objects == Map::<u64, Pins>::empty(),
            state@.truncated == Map::<Seq<char>, u64>::empty(),
            state@.deleted == Set::<Seq<char>>::empty(),
    {
        let state = GcState {
            objects: IdMap::new(),
            truncated_up_to: TextMap::new(),
            deleted_queues: TextMap::new(),
        };
        assert(state@.objects =~= Map::<u64, Pins>::empty());
        assert(state@.deleted =~= Set::<Seq<char>>::empty());
        state
    }

    fn take_pins(&mut self, id: u64) -> (pins: TextMap<Option<u64>>)
        requires
            old(self).well_formed(),
        ensures
            final(self).well_formed(),
            pins.well_formed(),
            pins@ == old(self)@.pins_of(id),
            final(self)@ == (GcModel { objects: old(self)@.objects.remove(id), ..old(self)@ }),
    {
        let taken = self.objects.remove(id);
        assert(self@.objects =~= old(self)@.objects.remove(id));
        match taken {
            Some(pins) => pins,
            None => TextMap::new(),
        }
    }

    fn put_pins(&mut self, id: u64, pins: TextMap<Option<u64>>)
        requires
            old(self).well_formed(),
            pins.well_formed(),
        ensures
            final(self).well_formed(),
            final(self)@ == (GcModel { objects: old(self)@.objects.insert(id, pins@), ..old(self)@ }),
    {
        self.objects.insert(id, pins);
        assert(self@.objects =~= old(self)@.objects.insert(id, pins@));
    }

    /// Takes note that an object holds records of a queue up to a position.
    pub fn pin_records(&mut self, wal_id: WalId, queue_id: &str, last_position: u64)
        requires
            old(self).well_formed(),
        ensures
            final(self).well_formed(),
            final(self)@ == (GcModel {
                objects: old(self)@.objects.insert(
                    wal_id.0,
                    with_record_pin(old(self)@.pins_of(wal_id.0), queue_id@, last_position),
                ),
                ..old(self)@
            }),
    {
        let mut pins = self.take_pins(wal_id.0);
        add_record_pin(&mut pins, queue_id, last_position);
        self.put_pins(wal_id.0, pins);
        assert(self@.objects =~= old(self)@.objects.insert(
            wal_id.0,
            with_record_pin(old(self)@.pins_of(wal_id.0), queue_id@, last_position),
        ));
    }

    /// Takes note that an object holds the marker of a queue.
    pub fn pin_marker(&mut self, wal_id: WalId, queue_id: &str)
        requires
            old(self).well_formed(),
        ensures
            final(self).well_formed(),
            final(self)@ == (GcModel {
                objects: old(self)@.objects.insert(
                    wal_id.0,
                    with_marker_pin(old(self)@.pins_of(wal_id.0), queue_id@),
                ),
                ..old(self)@
            }),
    {
        let mut pins = self.take_pins(wal_id.0);
        pins.insert(queue_id, None);
        self.put_pins(wal_id.0, pins);
        assert(self@.objects =~= old(self)@.objects.insert(
            wal_id.0,
            with_marker_pin(old(self)@.pins_of(wal_id.0), queue_id@),
        ));
    }

    /// Records that `queue_id` was truncated up to `position_inclusive`: objects holding only
    /// records at or below it become collectable.
    pub fn on_truncate(&mut self, queue_id: &str, position_inclusive: u64)
        requires
            old(self).well_formed(),
        ensures
            final(self).well_formed(),
            final(self)@ == (GcModel {
                truncated: old(self)@.truncated.insert(
                    queue_id@,
                    if old(self)@.truncated.contains_key(queue_id@) {
                        later_of(old(self)@.truncated[queue_id@], position_inclusive)
                    } else {
                        position_inclusive
                    },
                ),
                ..old(self)@
            }),
    {
        let position: u64 = match self.truncated_up_to.get(queue_id) {
            Some(truncated) => if *truncated >= position_inclusive {
                *truncated
            } else {
                position_inclusive
            },
            None => position_inclusive,
        };
        self.truncated_up_to.insert(queue_id, position);
    }

    /// Records that `queue_id` was deleted: its records never pin an object anymore.
    pub fn on_delete_queue(&mut self, queue_id: &str)
        requires
            old(self).well_formed(),
        ensures
            final(self).well_formed(),
            final(self)@ == (GcModel {
                truncated: old(self)@.truncated.remove(queue_id@),
                deleted: old(self)@.deleted.insert(queue_id@),
                ..old(self)@
            }),
    {
        self.deleted_queues.insert(queue_id, ());
        self.truncated_up_to.remove(queue_id);
        assert(self@.deleted =~= old(self)@.deleted.insert(queue_id@));
    }

    /// Forgets an object that was deleted.
    pub fn on_deleted(&mut self, wal_id: WalId)
        requires
            old(self).well_formed(),
        ensures
            final(self).well_formed(),
            final(self)@ == (GcModel { objects: old(self)@.objects.remove(wal_id.0), ..old(self)@ }),
    {
        self.objects.remove(wal_id.0);
        assert(self@.objects =~= old(self)@.objects.remove(wal_id.0));
    }

    /// Number of objects that may still hold live records.
    pub fn num_live_objects(&self) -> (num: usize)
        requires
            self.well_formed(),
        ensures
            num == self@.objects.dom().len(),
            self@.objects.dom().finite(),
    {
        proof {
            let ids = self.objects.ids();
            assert(ids.no_duplicates());
            ids.unique_seq_to_set();
            assert(self@.objects.dom() =~= ids.to_set());
        }
        self.objects.len()
    }

    fn is_covered(&self, queue_id: &str, last_position: Option<u64>) -> (covered: bool)
        requires
            self.well_formed(),
        ensures
            covered == self@.covers(queue_id@, last_position),
    {
        if self.deleted_queues.contains(queue_id) {
            return true;
        }
        match last_position {
            None => false,
            Some(last_position) => match self.truncated_up_to.get(queue_id) {
                Some(truncated) => *truncated >= last_position,
                None => false,
            },
        }
    }

    fn all_covered(&self, pins: &TextMap<Option<u64>>) -> (covered: bool)
        requires
            self.well_formed(),
            pins.well_formed(),
        ensures
            covered == forall|queue_id: Seq<char>| #[trigger]
                pins@.contains_key(queue_id) ==> self@.covers(queue_id, pins@[queue_id]),
    {
        let mut i: usize = 0;
        while i < pins.len()
            invariant
                self.well_formed(),
                pins.well_formed(),
                i <= pins.keys().len(),
                forall|j: int|
                    0 <= j < i ==> self@.covers(
                        #[trigger] pins.keys()[j],
                        pins@[pins.keys()[j]],
                    ),
            decreases pins.keys().len() - i,
        {
            if !self.is_covered(pins.key_at(i).as_str(), *pins.value_at(i)) {
                proof {
                    pins.entry_at(i as int);
                    assert(pins@.contains_key(pins.keys()[i as int]));
                }
                return false;
            }
            i = i + 1;
        }
        assert forall|queue_id: Seq<char>| #[trigger] pins@.contains_key(queue_id) implies
            self@.covers(queue_id, pins@[queue_id]) by {
            let j = pins.keys().index_of(queue_id);
            assert(pins.keys()[j] == queue_id);
        }
        true
    }

    /// Objects at or below `durable_wal_id` whose every record is truncated, in the order of their
    /// ids.
    pub fn collectable(&self, durable_wal_id: WalId) -> (ids: Vec<WalId>)
        requires
            self.well_formed(),
        ensures
            forall|i: int, j: int| 0 <= i < j < ids@.len() ==> ids@[i].0 < ids@[j].0,
            forall|i: int|
                0 <= i < ids@.len() ==> self@.can_collect(durable_wal_id.0, (#[trigger] ids@[i]).0),
            forall|id: u64| #[trigger]
                self@.can_collect(durable_wal_id.0, id) ==> ids@.contains(WalId(id)),
    {
        let mut ids: Vec<WalId> = Vec::new();
        let mut i: usize = 0;
        while i < self.objects.len() && self.objects.id_at(i) <= durable_wal_id.0
            invariant
                self.well_formed(),
                i <= self.objects.ids().len(),
                forall|a: int, b: int| 0 <= a < b < ids@.len() ==> ids@[a].0 < ids@[b].0,
                forall|a: int|
                    0 <= a < ids@.len() ==> self@.can_collect(
                        durable_wal_id.0,
                        (#[trigger] ids@[a]).0,
                    ),
                forall|a: int|
                    0 <= a < ids@.len() ==> i > 0 && (#[trigger] ids@[a]).0
                        <= self.objects.ids()[i - 1],
                forall|j: int|
                    0 <= j < i && self@.can_collect(
                        durable_wal_id.0,
                        #[trigger] self.objects.ids()[j],
                    ) ==> ids@.contains(WalId(self.objects.ids()[j])),
            decreases self.objects.ids().len() - i,
        {
            let ghost id = self.objects.ids()[i as int];
            let ghost before = ids@;
            proof {
                self.objects.entry_at(i as int);
                if i > 0 {
                    assert(self.objects.ids()[i - 1] < id);
                }
            }
            let pins = self.objects.value_at(i);
            assert(pins.well_formed());
            assert(self@.objects[id] == pins@);
            if self.all_covered(pins) {
                ids.push(WalId(self.objects.id_at(i)));
                assert(ids@[before.len() as int] == WalId(id));
                assert forall|j: int|
                    0 <= j < i + 1 && self@.can_collect(
                        durable_wal_id.0,
                        #[trigger] self.objects.ids()[j],
                    ) implies ids@.contains(WalId(self.objects.ids()[j])) by {
                    if j < i {
                        let k = before.index_of(WalId(self.objects.ids()[j]));
                        assert(before.contains(WalId(self.objects.ids()[j])));
                        assert(ids@[k] == before[k]);
                    }
                }
            }
            i = i + 1;
        }
        proof {
            assert forall|id: u64| #[trigger] self@.can_collect(
                durable_wal_id.0,
                id,
            ) implies ids@.contains(WalId(id)) by {
                assert(self.objects@.contains_key(id));
                let j = self.objects.ids().index_of(id);
                assert(self.objects.ids()[j] == id);
                if j >= i {
                    if j > i {
                        assert(self.objects.ids()[i as int] < self.objects.ids()[j]);
                    }
                }
            }
        }
        ids
    }
}

// ---- The persist path ----

/// An ingester's object-store WAL: what its writer buffers, and which objects are still needed.
pub struct ObjectWal {
    pub writer: WriterState,
    pub gc: GcState,
}

impl ObjectWal {
    pub open spec fn well_formed(self) -> bool {
        self.writer.well_formed() && self.gc.well_formed()
    }

    /// Whether every record of the object that is being assembled pins it.
    pub open spec fn pins_current(self) -> bool {
        forall|i: int|
            0 <= i < self.writer.current.models().len() ==> block_pinned(
                self.gc@.pins_of(self.writer.current.wal_id.0),
                #[trigger] self.writer.current.models()[i],
            )
    }

    /// Buffers records for `queue_id` at consecutive positions from `first_position`. See
    /// [`WriterState::append`].
    pub fn append(
        &mut self,
        config: &WalWriterConfig,
        queue_id: &str,
        first_position: u64,
        records: Vec<Bytes>,
    ) -> (appended: WalResult<(WalId, bool)>)
        requires
            old(self).well_formed(),
            records@.len() > 0,
            first_position + records@.len() <= u64::MAX,
            buffer::total_len(buffer::contents(records@)) <= u64::MAX,
            old(self).writer.buffered_records() + records@.len() <= u64::MAX,
        ensures
            final(self).well_formed(),
            old(self).pins_current() ==> final(self).pins_current(),
            match appended {
                Err(error) => *final(self) == *old(self) && error == match old(
                    self,
                ).writer.closed_reason {
                    Some(reason) => reason,
                    None => WalError::BufferFull,
                } && (old(self).writer.closed_reason is Some || old(self).writer.buffered_bytes()
                    + buffer::total_len(buffer::contents(records@))
                    > config.max_buffered_num_bytes),
                Ok((wal_id, flush)) => {
                    &&& old(self).writer.closed_reason is None
                    &&& old(self).writer.buffered_bytes() + buffer::total_len(
                        buffer::contents(records@),
                    ) <= config.max_buffered_num_bytes
                    &&& wal_id == old(self).writer.current.wal_id
                    &&& flush == (final(self).writer.current.num_bytes >= config.flush_num_bytes)
                    &&& final(self).writer.current.wal_id == wal_id
                    &&& final(self).writer.current.models() == writer::with_records(
                        old(self).writer.current.models(),
                        queue_id@,
                        first_position,
                        buffer::contents(records@),
                    )
                    &&& final(self).writer.buffered_bytes() == old(self).writer.buffered_bytes()
                        + buffer::total_len(buffer::contents(records@))
                    &&& final(self).writer.buffered_records() == old(
                        self,
                    ).writer.buffered_records() + records@.len()
                    &&& final(self).writer.same_beside_current(old(self).writer)
                    &&& final(self).gc@ == (GcModel {
                        objects: old(self).gc@.objects.insert(
                            wal_id.0,
                            with_record_pin(
                                old(self).gc@.pins_of(wal_id.0),
                                queue_id@,
                                (first_position + records@.len() - 1) as u64,
                            ),
                        ),
                        ..old(self).gc@
                    })
                },
            },
    {
        let last_position: u64 = first_position + (records.len() as u64 - 1);
        let ghost added = buffer::contents(records@);
        match self.writer.append(config, queue_id, first_position, records) {
            Err(error) => Err(error),
            Ok((wal_id, flush)) => {
                self.gc.pin_records(wal_id, queue_id, last_position);
                proof {
                    if old(self).pins_current() {
                        lemma_append_pins(
                            old(self).gc@.pins_of(wal_id.0),
                            old(self).writer.current.models(),
                            queue_id@,
                            first_position,
                            added,
                        );
                    }
                }
                Ok((wal_id, flush))
            },
        }
    }

    /// Records durably that `queue_id` exists. The object holding the marker is retained until
    /// the queue is deleted.
    pub fn append_queue_marker(&mut self, queue_id: &str) -> (appended: WalResult<WalId>)
        requires
            old(self).well_formed(),
        ensures
            final(self).well_formed(),
            old(self).pins_current() ==> final(self).pins_current(),
            match old(self).writer.closed_reason {
                Some(reason) => appended == Err::<WalId, WalError>(reason) && *final(self) == *old(
                    self,
                ),
                None => {
                    let wal_id = old(self).writer.current.wal_id;
                    &&& appended == Ok::<WalId, WalError>(wal_id)
                    &&& final(self).writer.current.wal_id == wal_id
                    &&& final(self).writer.current.models() == old(
                        self,
                    ).writer.current.models().push(
                        BlockModel { queue_id: queue_id@, first_position: 0, records: seq![] },
                    )
                    &&& final(self).writer.same_beside_current(old(self).writer)
                    &&& final(self).gc@ == (GcModel {
                        objects: old(self).gc@.objects.insert(
                            wal_id.0,
                            with_marker_pin(old(self).gc@.pins_of(wal_id.0), queue_id@),
                        ),
                        ..old(self).gc@
                    })
                },
            },
    {
        match self.writer.append_queue_marker(queue_id) {
            Err(error) => Err(error),
            Ok(wal_id) => {
                self.gc.pin_marker(wal_id, queue_id);
                proof {
                    if old(self).pins_current() {
                        let before = old(self).writer.current.models();
                        let after = self.writer.current.models();
                        assert forall|i: int| 0 <= i < after.len() implies block_pinned(
                            self.gc@.pins_of(wal_id.0),
                            #[trigger] after[i],
                        ) by {
                            if i < before.len() {
                                assert(block_pinned(
                                    old(self).gc@.pins_of(wal_id.0),
                                    before[i],
                                ));
                            }
                        }
                    }
                }
                Ok(wal_id)
            },
        }
    }
}

/// Whether a block pins the object that holds it: its queue does, with nothing less than the last
/// position of the block, and until the queue is deleted if the block is a queue marker.
pub open spec fn block_pinned(pins: Pins, block: BlockModel) -> bool {
    pins.contains_key(block.queue_id) && match pins[block.queue_id] {
        Some(last) => block.records.len() > 0 && last >= block.first_position + block.records.len()
            - 1,
        None => true,
    }
}

proof fn lemma_append_pins(
    pins: Pins,
    blocks: Seq<BlockModel>,
    queue_id: Seq<char>,
    first_position: u64,
    records: Seq<Seq<u8>>,
)
    requires
        records.len() > 0,
        first_position + records.len() <= u64::MAX,
        forall|i: int| 0 <= i < blocks.len() ==> block_pinned(pins, #[trigger] blocks[i]),
    ensures
        ({
            let after = writer::with_records(blocks, queue_id, first_position, records);
            let later = with_record_pin(
                pins,
                queue_id,
                (first_position + records.len() - 1) as u64,
            );
            forall|i: int| 0 <= i < after.len() ==> block_pinned(later, #[trigger] after[i])
        }),
{
    let after = writer::with_records(blocks, queue_id, first_position, records);
    let later = with_record_pin(pins, queue_id, (first_position + records.len() - 1) as u64);
    lemma_last_block_is_of_the_queue(blocks, queue_id);
    assert forall|i: int| 0 <= i < after.len() implies block_pinned(later, #[trigger] after[i]) by {
        if i < blocks.len() {
            assert(block_pinned(pins, blocks[i]));
        }
    }
}

proof fn lemma_last_block_is_of_the_queue(blocks: Seq<BlockModel>, queue_id: Seq<char>)
    ensures
        writer::last_block_of(blocks, queue_id) matches Some(i) ==> 0 <= i < blocks.len()
            && blocks[i].queue_id == queue_id,
    decreases blocks.len(),
{
    if blocks.len() > 0 {
        lemma_last_block_is_of_the_queue(blocks.drop_last(), queue_id);
    }
}

// ---- Opening ----

/// The highest id of a listing, zero for an empty one.
pub open spec fn listed_tail(existing: Seq<WalObjectRef>) -> u64 {
    if existing.len() == 0 {
        0
    } else {
        existing.last().wal_id.0
    }
}

/// The objects to read when a log is opened: those of the listing, then those written between the
/// listing and the fence.
pub open spec fn ids_to_read(existing: Seq<WalObjectRef>, fence_id: u64) -> Seq<WalId> {
    let listed = Seq::new(existing.len(), |i: int| existing[i].wal_id);
    let tail = listed_tail(existing);
    if fence_id > tail + 1 {
        listed + Seq::new((fence_id - tail - 1) as nat, |i: int| WalId((tail + 1 + i) as u64))
    } else {
        listed
    }
}

/// The highest id of a listing in the order of its ids: a lower bound for the search of the tail
/// that lies above everything collected.
pub fn lower_bound(existing: &Vec<WalObjectRef>) -> (id: WalId)
    ensures
        id.0 == listed_tail(existing@),
{
    if existing.len() == 0 {
        WalId(0)
    } else {
        existing[existing.len() - 1].wal_id
    }
}

/// The objects to read when a log is opened.
pub fn objects_to_read(existing: &Vec<WalObjectRef>, fence_id: WalId) -> (ids: Vec<WalId>)
    ensures
        ids@ == ids_to_read(existing@, fence_id.0),
{
    let mut ids: Vec<WalId> = Vec::new();
    let mut i: usize = 0;
    while i < existing.len()
        invariant
            i <= existing@.len(),
            ids@ =~= Seq::new(i as nat, |j: int| existing@[j].wal_id),
        decreases existing@.len() - i,
    {
        ids.push(existing[i].wal_id);
        i = i + 1;
    }
    let ghost listed = ids@;
    let tail: u64 = lower_bound(existing).0;
    let mut id: u64 = tail;
    while fence_id.0 > 0 && id < fence_id.0 - 1
        invariant
            tail <= id,
            id == tail || id < fence_id.0,
            ids@ =~= listed + Seq::new((id - tail) as nat, |j: int| WalId((tail + 1 + j) as u64)),
        decreases fence_id.0 - id,
    {
        id = id + 1;
        ids.push(WalId(id));
    }
    assert(ids@ =~= ids_to_read(existing@, fence_id.0));
    ids
}

/// What is known of a log while it is opened.
pub struct LogContents {
    pub gc: GcState,
    /// Records left in the log by previous incarnations of the ingester.
    pub replay: Vec<WalRecord>,
    /// Queues that exist according to the log.
    pub queues: TextMap<()>,
}

/// What pins an object with these blocks, among the first `n`: a queue marker takes the place of
/// what the blocks before it pinned.
pub open spec fn object_pins(blocks: Seq<BlockModel>, n: nat) -> Pins
    decreases n,
{
    if n == 0 {
        Map::empty()
    } else {
        let before = object_pins(blocks, (n - 1) as nat);
        let block = blocks[n - 1];
        if block.records.len() == 0 {
            with_marker_pin(before, block.queue_id)
        } else {
            with_record_pin(
                before,
                block.queue_id,
                (block.first_position + block.records.len() - 1) as u64,
            )
        }
    }
}

/// The records of the first `n` blocks, block by block.
pub open spec fn object_records(blocks: Seq<BlockModel>, n: nat) -> Seq<RecordModel>
    decreases n,
{
    if n == 0 {
        seq![]
    } else {
        let block = blocks[n - 1];
        object_records(blocks, (n - 1) as nat) + reader::records_from(
            block.queue_id,
            block.first_position as int,
            block.records,
            0,
            block.records.len(),
        )
    }
}

/// The queues of the first `n` blocks.
pub open spec fn object_queues(blocks: Seq<BlockModel>, n: nat) -> Set<Seq<char>>
    decreases n,
{
    if n == 0 {
        Set::empty()
    } else {
        object_queues(blocks, (n - 1) as nat).insert(blocks[n - 1].queue_id)
    }
}

/// Whether the positions of every block are numbers of its queue.
pub open spec fn blocks_fit(blocks: Seq<BlockModel>) -> bool {
    forall|i: int| 0 <= i < blocks.len() ==> writer::block_positions_fit(#[trigger] blocks[i])
}

/// Whether the positions of every block are numbers of its queue.
pub fn positions_fit(blocks: &Vec<WalBlock>) -> (fit: bool)
    ensures
        fit == blocks_fit(wal::format::block_models(blocks@)),
{
    let ghost models = wal::format::block_models(blocks@);
    let mut i: usize = 0;
    while i < blocks.len()
        invariant
            i <= blocks@.len(),
            models == wal::format::block_models(blocks@),
            forall|j: int| 0 <= j < i ==> writer::block_positions_fit(#[trigger] models[j]),
        decreases blocks@.len() - i,
    {
        if blocks[i].records.len() as u64 > u64::MAX - blocks[i].first_position {
            assert(!writer::block_positions_fit(models[i as int]));
            return false;
        }
        i = i + 1;
    }
    true
}

/// What reading an object of the log gives.
pub type ObjectRead = WalResult<(WalObjectHeader, Vec<WalBlock>)>;

/// Whether an object was collected since the listing.
pub open spec fn is_collected(read: ObjectRead) -> bool {
    read matches Err(WalError::Storage(error)) && error.kind == StorageErrorKind::NotFound
}

/// The blocks of an object of the log that is neither a fence nor collected.
pub open spec fn data_blocks(read: ObjectRead) -> Option<Seq<BlockModel>> {
    match read {
        Ok((header, blocks)) if !header.is_fence => Some(wal::format::block_models(blocks@)),
        _ => None,
    }
}

/// Whether an object takes the contents of a log on from what the objects before it hold. Only a
/// data object adds anything; an error other than that the object was collected is passed on.
pub open spec fn adds_object(
    before: LogContents,
    after: LogContents,
    wal_id: WalId,
    read: ObjectRead,
    added: WalResult<()>,
) -> bool {
    &&& added == if read is Ok || is_collected(read) {
        Ok::<(), WalError>(())
    } else {
        Err::<(), WalError>(read->Err_0)
    }
    &&& match data_blocks(read) {
        None => after == before,
        Some(blocks) => {
            &&& after.gc@ == (GcModel {
                objects: before.gc@.objects.insert(wal_id.0, object_pins(blocks, blocks.len())),
                ..before.gc@
            })
            &&& reader::record_models(after.replay@) == reader::record_models(before.replay@)
                + object_records(blocks, blocks.len())
            &&& after.queues@.dom() == before.queues@.dom().union(
                object_queues(blocks, blocks.len()),
            )
        },
    }
}

/// The records of the data objects among the first `n` of a log, object by object.
pub open spec fn log_records(reads: Seq<ObjectRead>, n: nat) -> Seq<RecordModel>
    decreases n,
{
    if n == 0 {
        seq![]
    } else {
        let before = log_records(reads, (n - 1) as nat);
        match data_blocks(reads[n - 1]) {
            Some(blocks) => before + object_records(blocks, blocks.len()),
            None => before,
        }
    }
}

/// The queues of the data objects among the first `n` of a log.
pub open spec fn log_queues(reads: Seq<ObjectRead>, n: nat) -> Set<Seq<char>>
    decreases n,
{
    if n == 0 {
        Set::empty()
    } else {
        let before = log_queues(reads, (n - 1) as nat);
        match data_blocks(reads[n - 1]) {
            Some(blocks) => before.union(object_queues(blocks, blocks.len())),
            None => before,
        }
    }
}

/// What pins the data objects among the first `n` of a log.
pub open spec fn log_pins(ids: Seq<WalId>, reads: Seq<ObjectRead>, n: nat) -> Map<u64, Pins>
    decreases n,
{
    if n == 0 {
        Map::empty()
    } else {
        let before = log_pins(ids, reads, (n - 1) as nat);
        match data_blocks(reads[n - 1]) {
            Some(blocks) => before.insert(ids[n - 1].0, object_pins(blocks, blocks.len())),
            None => before,
        }
    }
}

impl LogContents {
    pub open spec fn well_formed(self) -> bool {
        self.gc.well_formed() && self.queues.well_formed()
    }

    pub fn new() -> (contents: Self)
        ensures
            contents.well_formed(),
            contents.gc@.objects == Map::<u64, Pins>::empty(),
            contents.gc@.truncated == Map::<Seq<char>, u64>::empty(),
            contents.gc@.deleted == Set::<Seq<char>>::empty(),
            contents.replay@ == Seq::<WalRecord>::empty(),
            contents.queues@ == Map::<Seq<char>, ()>::empty(),
    {
        LogContents { gc: GcState::new(), replay: Vec::new(), queues: TextMap::new() }
    }

    fn add_blocks(&mut self, blocks: &Vec<WalBlock>) -> (pins: TextMap<Option<u64>>)
        requires
            old(self).well_formed(),
            blocks_fit(wal::format::block_models(blocks@)),
        ensures
            final(self).well_formed(),
            final(self).gc == old(self).gc,
            pins.well_formed(),
            pins@ == object_pins(wal::format::block_models(blocks@), blocks@.len()),
            reader::record_models(final(self).replay@) == reader::record_models(
                old(self).replay@,
            ) + object_records(wal::format::block_models(blocks@), blocks@.len()),
            final(self).queues@.dom() == old(self).queues@.dom().union(
                object_queues(wal::format::block_models(blocks@), blocks@.len()),
            ),
    {
        let ghost models = wal::format::block_models(blocks@);
        let ghost replayed = reader::record_models(self.replay@);
        let mut pins: TextMap<Option<u64>> = TextMap::new();
        let mut i: usize = 0;
        assert(replayed + Seq::<RecordModel>::empty() =~= replayed);
        assert(self.queues@.dom() =~= old(self).queues@.dom().union(Set::empty()));
        while i < blocks.len()
            invariant
                i <= blocks@.len(),
                models == wal::format::block_models(blocks@),
                blocks_fit(models),
                self.gc == old(self).gc,
                self.queues.well_formed(),
                pins.well_formed(),
                pins@ == object_pins(models, i as nat),
                reader::record_models(self.replay@) == replayed + object_records(models, i as nat),
                self.queues@.dom() == old(self).queues@.dom().union(
                    object_queues(models, i as nat),
                ),
            decreases blocks@.len() - i,
        {
            let block = &blocks[i];
            assert(models[i as int] == block@);
            assert(writer::block_positions_fit(models[i as int]));
            let ghost queues = self.queues@.dom();
            self.queues.insert(block.queue_id.as_str(), ());
            assert(self.queues@.dom() =~= old(self).queues@.dom().union(
                object_queues(models, (i + 1) as nat),
            ));
            let ghost so_far = reader::record_models(self.replay@);
            if block.is_queue_marker() {
                pins.insert(block.queue_id.as_str(), None);
                assert(reader::records_from(
                    block@.queue_id,
                    block@.first_position as int,
                    block@.records,
                    0,
                    0,
                ) =~= seq![]);
                assert(so_far =~= replayed + object_records(models, (i + 1) as nat));
            } else {
                add_record_pin(&mut pins, block.queue_id.as_str(), block.last_position());
                replay_block(
                    &mut self.replay,
                    block.queue_id.as_str(),
                    block.first_position,
                    &block.records,
                    0,
                );
                assert(reader::record_models(self.replay@) =~= replayed + object_records(
                    models,
                    (i + 1) as nat,
                ));
            }
            i = i + 1;
        }
        pins
    }

    /// Adds an object of the log. One that was collected since the listing is passed over, and so
    /// is a fence.
    pub fn add_object(
        &mut self,
        wal_id: WalId,
        read: ObjectRead,
    ) -> (added: WalResult<()>)
        requires
            old(self).well_formed(),
            read matches Ok((_, blocks)) ==> blocks_fit(wal::format::block_models(blocks@)),
        ensures
            final(self).well_formed(),
            adds_object(*old(self), *final(self), wal_id, read, added),
    {
        match read {
            Err(error) => {
                if error.is_storage_kind(StorageErrorKind::NotFound) {
                    Ok(())
                } else {
                    Err(error)
                }
            },
            Ok((header, blocks)) => {
                if header.is_fence {
                    return Ok(());
                }
                let pins = self.add_blocks(&blocks);
                self.gc.put_pins(wal_id.0, pins);
                Ok(())
            },
        }
    }
}

// ---- Replay order ----

/// Whether a record comes before another: by queue, then by position.
pub open spec fn record_before(a: WalRecord, b: WalRecord) -> bool {
    text::text_before(a.queue_id@, b.queue_id@) || (a.queue_id@ == b.queue_id@ && a.position
        < b.position)
}

/// Whether records are in the order of their queues and positions.
pub open spec fn in_replay_order(records: Seq<WalRecord>) -> bool {
    forall|i: int, j: int|
        0 <= i < j < records.len() ==> !record_before(records[j], records[i])
}

/// The records of a list at a position of a queue, in the order of the list.
pub open spec fn records_at(
    records: Seq<WalRecord>,
    queue_id: Seq<char>,
    position: u64,
) -> Seq<WalRecord> {
    records.filter(|record: WalRecord| record.queue_id@ == queue_id && record.position == position)
}

/// Compares two records by queue, then by position.
pub fn compare_records(a: &WalRecord, b: &WalRecord) -> (order: Ordering)
    ensures
        (order == Ordering::Less) == record_before(*a, *b),
        (order == Ordering::Greater) == record_before(*b, *a),
        (order == Ordering::Equal) == (a.queue_id@ == b.queue_id@ && a.position == b.position),
{
    proof {
        text::texts_are_ordered(a.queue_id@, b.queue_id@);
    }
    if is_text_before(a.queue_id.as_str(), b.queue_id.as_str()) {
        return Ordering::Less;
    }
    if !same_text(a.queue_id.as_str(), b.queue_id.as_str()) {
        return Ordering::Greater;
    }
    if a.position < b.position {
        Ordering::Less
    } else if a.position > b.position {
        Ordering::Greater
    } else {
        Ordering::Equal
    }
}

/// `<[T]>::sort_by` with [`compare_records`], a total order: a stable sort, so the result is in
/// order, and records with the same queue and position keep their order.
#[verifier::external_body]
fn sort_records(records: &mut Vec<WalRecord>)
    ensures
        final(records)@.len() == old(records)@.len(),
        in_replay_order(final(records)@),
        forall|queue_id: Seq<char>, position: u64| #[trigger]
            records_at(final(records)@, queue_id, position) == records_at(
                old(records)@,
                queue_id,
                position,
            ),
{
    records.sort_by(|a, b| compare_records(a, b));
}

/// What the opening of a log gives.
pub struct OpenedObjectWal {
    pub object_wal: ObjectWal,
    /// Records left in the log by previous incarnations of this ingester, in `(queue, position)`
    /// order. The caller decides what to do with them (typically: re-insert into the local
    /// queue structure so they can be served to indexers).
    pub replay: Vec<WalRecord>,
    /// Queues that exist according to the log, including ones without any record to replay, in
    /// order.
    pub queues: Vec<String>,
}

/// Completes the opening of a log: the records in replay order, and a writer right after the fence.
pub fn open(contents: LogContents, fence_id: WalId) -> (opened: OpenedObjectWal)
    requires
        contents.well_formed(),
        fence_id.0 < u64::MAX,
    ensures
        opened.object_wal.well_formed(),
        opened.object_wal.gc == contents.gc,
        opened.object_wal.writer.current.wal_id.0 == fence_id.0 + 1,
        opened.object_wal.writer.current.models().len() == 0,
        opened.object_wal.writer.durable_wal_id == fence_id,
        opened.object_wal.writer.buffered_bytes() == 0,
        opened.object_wal.writer.buffered_records() == 0,
        opened.object_wal.writer.closed_reason is None,
        opened.object_wal.pins_current(),
        opened.replay@.len() == contents.replay@.len(),
        in_replay_order(opened.replay@),
        forall|queue_id: Seq<char>, position: u64| #[trigger]
            records_at(opened.replay@, queue_id, position) == records_at(
                contents.replay@,
                queue_id,
                position,
            ),
        crate::path::texts(opened.queues@) == contents.queues.keys(),
{
    let mut queues: Vec<String> = Vec::new();
    let mut i: usize = 0;
    assert(crate::path::texts(queues@) =~= contents.queues.keys().take(0));
    while i < contents.queues.len()
        invariant
            i <= contents.queues.keys().len(),
            crate::path::texts(queues@) == contents.queues.keys().take(i as int),
        decreases contents.queues.keys().len() - i,
    {
        let ghost before = crate::path::texts(queues@);
        queues.push(contents.queues.key_at(i).clone());
        assert(crate::path::texts(queues@) =~= before.push(contents.queues.keys()[i as int]));
        assert(crate::path::texts(queues@) =~= contents.queues.keys().take(i + 1));
        i = i + 1;
    }
    assert(contents.queues.keys().take(i as int) =~= contents.queues.keys());
    let mut replay = contents.replay;
    sort_records(&mut replay);
    let object_wal = ObjectWal { writer: WriterState::new(fence_id.next()), gc: contents.gc };
    OpenedObjectWal { object_wal, replay, queues }
}

// ---- Laws ----

/// The later of two positions is one of them, and neither is behind it.
pub proof fn later_of_is_the_maximum(a: u64, b: u64)
    ensures
        later_of(a, b) >= a,
        later_of(a, b) >= b,
        later_of(a, b) == a || later_of(a, b) == b,
{
}

/// A block of records pins its object at the last position that its queue has there, and no longer:
/// the pin is one of the positions that were given, and none of them is behind it. A marker is not
/// undone by records, and other queues are left alone.
pub proof fn records_pin_up_to_their_last_position(
    pins: Pins,
    queue_id: Seq<char>,
    last_position: u64,
    other: Seq<char>,
)
    requires
        other != queue_id,
    ensures
        ({
            let after = with_record_pin(pins, queue_id, last_position);
            &&& after.contains_key(queue_id)
            &&& !pins.contains_key(queue_id) ==> after[queue_id] == Some(last_position)
            &&& pins.contains_key(queue_id) && pins[queue_id] is None ==> after[queue_id] is None
            &&& pins.contains_key(queue_id) && pins[queue_id] is Some ==> {
                &&& after[queue_id] == Some(last_position) || after[queue_id] == pins[queue_id]
                &&& after[queue_id]->0 >= last_position
                &&& after[queue_id]->0 >= pins[queue_id]->0
            }
            &&& after.contains_key(other) == pins.contains_key(other)
            &&& pins.contains_key(other) ==> after[other] == pins[other]
        }),
{
}

/// A marker pins its object for good, and leaves the pins of other queues alone.
pub proof fn markers_pin_for_good(pins: Pins, queue_id: Seq<char>, other: Seq<char>)
    requires
        other != queue_id,
    ensures
        ({
            let after = with_marker_pin(pins, queue_id);
            &&& after.contains_key(queue_id)
            &&& after[queue_id] is None
            &&& after.contains_key(other) == pins.contains_key(other)
            &&& pins.contains_key(other) ==> after[other] == pins[other]
        }),
{
}

/// An object that nothing was recorded of has no pins.
pub proof fn unknown_objects_have_no_pins(gc: GcModel, id: u64, queue_id: Seq<char>)
    ensures
        gc.objects.contains_key(id) ==> gc.pins_of(id) == gc.objects[id],
        !gc.objects.contains_key(id) ==> !gc.pins_of(id).contains_key(queue_id),
{
}

/// A queue pins an object exactly if a block there is its own. It does so for good exactly if one of
/// these blocks is a marker, and else at the highest last position of these blocks.
pub proof fn pins_are_the_last_positions_of_the_queues(
    blocks: Seq<BlockModel>,
    n: nat,
    queue_id: Seq<char>,
)
    requires
        n <= blocks.len(),
        forall|i: int|
            0 <= i < blocks.len() ==> (#[trigger] blocks[i]).first_position
                + blocks[i].records.len() <= u64::MAX,
    ensures
        object_pins(blocks, n).contains_key(queue_id) <==> exists|i: int|
            0 <= i < n && (#[trigger] blocks[i]).queue_id == queue_id,
        object_pins(blocks, n).contains_key(queue_id) ==> (object_pins(blocks, n)[queue_id] is None
            <==> exists|i: int|
            0 <= i < n && (#[trigger] blocks[i]).queue_id == queue_id && blocks[i].records.len()
                == 0),
        object_pins(blocks, n).contains_key(queue_id) && object_pins(blocks, n)[queue_id] is Some
            ==> {
            let last = object_pins(blocks, n)[queue_id]->0;
            &&& exists|i: int|
                0 <= i < n && (#[trigger] blocks[i]).queue_id == queue_id && last
                    == blocks[i].first_position + blocks[i].records.len() - 1
            &&& forall|i: int|
                0 <= i < n && (#[trigger] blocks[i]).queue_id == queue_id ==> last
                    >= blocks[i].first_position + blocks[i].records.len() - 1
        },
    decreases n,
{
    if n > 0 {
        pins_are_the_last_positions_of_the_queues(blocks, (n - 1) as nat, queue_id);
        let block = blocks[n - 1];
        let before = object_pins(blocks, (n - 1) as nat);
        if block.queue_id == queue_id && before.contains_key(queue_id) {
            let i = choose|i: int| 0 <= i < n - 1 && (#[trigger] blocks[i]).queue_id == queue_id;
            assert(blocks[i].queue_id == queue_id);
        }
    }
}

/// A durable object can be collected exactly if nothing in it is live: every queue of its blocks was
/// deleted, or is truncated at or past its last record there. A marker stays live until its queue is
/// deleted.
pub proof fn objects_are_collected_once_nothing_is_live(
    gc: GcModel,
    durable: u64,
    id: u64,
    blocks: Seq<BlockModel>,
)
    requires
        gc.objects.contains_key(id),
        gc.objects[id] == object_pins(blocks, blocks.len()),
        forall|i: int|
            0 <= i < blocks.len() ==> (#[trigger] blocks[i]).first_position
                + blocks[i].records.len() <= u64::MAX,
    ensures
        gc.can_collect(durable, id) <==> id <= durable && forall|i: int|
            0 <= i < blocks.len() ==> gc.deleted.contains((#[trigger] blocks[i]).queue_id) || (
            blocks[i].records.len() > 0 && gc.truncated.contains_key(blocks[i].queue_id)
                && gc.truncated[blocks[i].queue_id] >= blocks[i].first_position
                + blocks[i].records.len() - 1),
{
    let pins = object_pins(blocks, blocks.len());
    let all_dead = forall|i: int|
        0 <= i < blocks.len() ==> gc.deleted.contains((#[trigger] blocks[i]).queue_id) || (
        blocks[i].records.len() > 0 && gc.truncated.contains_key(blocks[i].queue_id)
            && gc.truncated[blocks[i].queue_id] >= blocks[i].first_position
            + blocks[i].records.len() - 1);
    if gc.can_collect(durable, id) {
        assert forall|i: int| 0 <= i < blocks.len() implies gc.deleted.contains(
            (#[trigger] blocks[i]).queue_id,
        ) || (blocks[i].records.len() > 0 && gc.truncated.contains_key(blocks[i].queue_id)
            && gc.truncated[blocks[i].queue_id] >= blocks[i].first_position
            + blocks[i].records.len() - 1) by {
            let queue_id = blocks[i].queue_id;
            pins_are_the_last_positions_of_the_queues(blocks, blocks.len(), queue_id);
            assert(pins.contains_key(queue_id));
            assert(gc.covers(queue_id, pins[queue_id]));
        }
    }
    if id <= durable && all_dead {
        assert forall|queue_id: Seq<char>| #[trigger] pins.contains_key(queue_id) implies gc.covers(
            queue_id,
            pins[queue_id],
        ) by {
            pins_are_the_last_positions_of_the_queues(blocks, blocks.len(), queue_id);
            let i = choose|i: int| 0 <= i < blocks.len() && (#[trigger] blocks[i]).queue_id == queue_id;
            assert(gc.deleted.contains(blocks[i].queue_id) || blocks[i].records.len() > 0);
            if pins[queue_id] is Some {
                let j = choose|j: int|
                    0 <= j < blocks.len() && (#[trigger] blocks[j]).queue_id == queue_id
                        && pins[queue_id]->0 == blocks[j].first_position + blocks[j].records.len()
                        - 1;
                assert(gc.deleted.contains(blocks[j].queue_id) || blocks[j].records.len() > 0);
            } else {
                let j = choose|j: int|
                    0 <= j < blocks.len() && (#[trigger] blocks[j]).queue_id == queue_id
                        && blocks[j].records.len() == 0;
                assert(gc.deleted.contains(blocks[j].queue_id));
            }
        }
    }
}

/// What is covered: a queue that was deleted, and otherwise what a queue was truncated up to. A marker
/// is covered by nothing but the deletion of its queue.
pub proof fn coverage_needs_deletion_or_truncation(
    gc: GcModel,
    queue_id: Seq<char>,
    last_position: u64,
)
    ensures
        gc.deleted.contains(queue_id) ==> gc.covers(queue_id, Some(last_position)) && gc.covers(
            queue_id,
            None,
        ),
        !gc.deleted.contains(queue_id) ==> !gc.covers(queue_id, None),
        !gc.deleted.contains(queue_id) && !gc.truncated.contains_key(queue_id) ==> !gc.covers(
            queue_id,
            Some(last_position),
        ),
        !gc.deleted.contains(queue_id) && gc.truncated.contains_key(queue_id) ==> (gc.covers(
            queue_id,
            Some(last_position),
        ) <==> last_position <= gc.truncated[queue_id]),
{
}

/// A log is read from the first object of its listing to the last one before its fence: every listed
/// object, in order, then every id behind the listing up to, not including, the fence, once each.
pub proof fn every_object_before_the_fence_is_read(
    existing: Seq<WalObjectRef>,
    fence_id: u64,
    tail: u64,
    id: u64,
)
    requires
        existing.len() == 0 ==> tail == 0,
        existing.len() > 0 ==> tail == existing[existing.len() - 1].wal_id.0,
    ensures
        ({
            let ids = ids_to_read(existing, fence_id);
            &&& ids.len() == existing.len() + if fence_id > tail + 1 {
                fence_id - tail - 1
            } else {
                0
            }
            &&& forall|i: int|
                0 <= i < existing.len() ==> #[trigger] ids[i] == existing[i].wal_id
            &&& forall|i: int|
                existing.len() <= i < ids.len() ==> (#[trigger] ids[i]).0 == tail + 1 + i
                    - existing.len()
            &&& tail < id < fence_id ==> ids.contains(WalId(id))
        }),
        listed_tail(existing) == tail,
{
    let ids = ids_to_read(existing, fence_id);
    if tail < id < fence_id {
        assert(ids[existing.len() + id - tail - 1] == WalId(id));
    }
}

/// The records of an object are those of its blocks, block by block: record `k` of block `b` stands
/// behind all records of the blocks before, at the position that the block gives it.
pub proof fn object_records_are_those_of_its_blocks(blocks: Seq<BlockModel>, n: nat, b: int, k: int)
    requires
        0 <= b < n <= blocks.len(),
        0 <= k < blocks[b].records.len(),
    ensures
        object_records(blocks, 0).len() == 0,
        object_records(blocks, (b + 1) as nat).len() == object_records(blocks, b as nat).len()
            + blocks[b].records.len(),
        object_records(blocks, b as nat).len() + k < object_records(blocks, n).len(),
        ({
            let record = object_records(blocks, n)[object_records(blocks, b as nat).len() + k];
            &&& record.queue_id == blocks[b].queue_id
            &&& record.position == blocks[b].first_position + k
            &&& record.record == blocks[b].records[k]
        }),
    decreases n,
{
    let before = object_records(blocks, (n - 1) as nat);
    let block = blocks[n - 1];
    reader::replay_gives_every_later_record(
        block.queue_id,
        block.first_position as int,
        block.records,
        0,
        block.records.len(),
    );
    reader::replay_gives_every_later_record(
        blocks[b].queue_id,
        blocks[b].first_position as int,
        blocks[b].records,
        0,
        blocks[b].records.len(),
    );
    if b < n - 1 {
        object_records_are_those_of_its_blocks(blocks, (n - 1) as nat, b, k);
    }
}

/// A queue exists according to an object exactly if a block there is its own, be it a marker.
pub proof fn object_queues_are_those_of_its_blocks(
    blocks: Seq<BlockModel>,
    n: nat,
    queue_id: Seq<char>,
)
    requires
        n <= blocks.len(),
    ensures
        object_queues(blocks, n).contains(queue_id) <==> exists|i: int|
            0 <= i < n && (#[trigger] blocks[i]).queue_id == queue_id,
    decreases n,
{
    if n > 0 {
        object_queues_are_those_of_its_blocks(blocks, (n - 1) as nat, queue_id);
        if blocks[n - 1].queue_id == queue_id {
            assert(blocks[n - 1].queue_id == queue_id);
        }
    }
}

/// An object that cannot be read stops the opening of a log, unless it is gone. A fence, and an object
/// that is gone, leave everything as it was.
pub proof fn only_data_objects_add_to_a_log(
    before: LogContents,
    after: LogContents,
    wal_id: WalId,
    read: ObjectRead,
    added: WalResult<()>,
)
    requires
        adds_object(before, after, wal_id, read, added),
    ensures
        read is Ok ==> added is Ok,
        read matches Err(WalError::Storage(error)) && error.kind == StorageErrorKind::NotFound
            ==> added is Ok,
        read matches Err(error) && !(error matches WalError::Storage(storage_error)
            && storage_error.kind == StorageErrorKind::NotFound) ==> added == Err::<(), WalError>(
            read->Err_0,
        ),
        read is Err ==> after == before,
        read matches Ok((header, _)) && header.is_fence ==> after == before,
        read matches Ok((header, blocks)) && !header.is_fence ==> {
            let models = wal::format::block_models(read->Ok_0.1@);
            &&& after.gc@.truncated == before.gc@.truncated
            &&& after.gc@.deleted == before.gc@.deleted
            &&& after.gc@.objects == before.gc@.objects.insert(
                wal_id.0,
                object_pins(models, models.len()),
            )
            &&& reader::record_models(after.replay@) == reader::record_models(before.replay@)
                + object_records(models, models.len())
            &&& forall|queue_id: Seq<char>|
                after.queues@.contains_key(queue_id) <==> #[trigger] before.queues@.contains_key(
                    queue_id,
                ) || object_queues(models, models.len()).contains(queue_id)
        },
{
    if let Ok((header, blocks)) = read {
        if !header.is_fence {
            let models = wal::format::block_models(blocks@);
            assert forall|queue_id: Seq<char>|
                after.queues@.contains_key(queue_id) <==> #[trigger] before.queues@.contains_key(
                    queue_id,
                ) || object_queues(models, models.len()).contains(queue_id) by {
                assert(after.queues@.dom().contains(queue_id) == (before.queues@.dom().contains(
                    queue_id,
                ) || object_queues(models, models.len()).contains(queue_id)));
            }
        }
    }
}

/// Records are replayed queue by queue, in the order of the queues' names, and within a queue by
/// position.
pub proof fn replay_goes_by_queue_and_position(records: Seq<WalRecord>, i: int, j: int)
    requires
        in_replay_order(records),
        0 <= i < j < records.len(),
    ensures
        records[i].queue_id@ == records[j].queue_id@ ==> records[i].position
            <= records[j].position,
        !text::text_before(records[j].queue_id@, records[i].queue_id@),
{
    assert(!record_before(records[j], records[i]));
}

/// The records at a position of a queue are those of the list that are there, and no others.
pub proof fn records_at_are_of_the_list(
    records: Seq<WalRecord>,
    queue_id: Seq<char>,
    position: u64,
    record: WalRecord,
)
    ensures
        records_at(records, queue_id, position).contains(record) <==> records.contains(record)
            && record.queue_id@ == queue_id && record.position == position,
    decreases records.len(),
{
    reveal(Seq::filter);
    let found = records_at(records, queue_id, position);
    if records.len() > 0 {
        let rest = records.drop_last();
        let before = records_at(rest, queue_id, position);
        let last = records.last();
        records_at_are_of_the_list(rest, queue_id, position, record);
        if last.queue_id@ == queue_id && last.position == position {
            assert(found == before.push(last));
        } else {
            assert(found == before);
        }
        if found.contains(record) {
            let i = choose|i: int| 0 <= i < found.len() && found[i] == record;
            if i < before.len() {
                assert(before[i] == record);
                let j = choose|j: int| 0 <= j < rest.len() && rest[j] == record;
                assert(records[j] == record);
            } else {
                assert(records[records.len() - 1] == record);
            }
        }
        if records.contains(record) && record.queue_id@ == queue_id && record.position
            == position {
            let j = choose|j: int| 0 <= j < records.len() && records[j] == record;
            if j < rest.len() {
                assert(rest[j] == record);
                let i = choose|i: int| 0 <= i < before.len() && before[i] == record;
                assert(found[i] == record);
            } else {
                assert(found[found.len() - 1] == record);
            }
        }
    }
}

/// Whether the objects of a log were added one by one, without an error, to contents that were empty
/// before. `contents` is what was known before each object, and after the last.
pub open spec fn added_one_by_one(
    ids: Seq<WalId>,
    reads: Seq<ObjectRead>,
    contents: Seq<LogContents>,
) -> bool {
    &&& ids.len() == reads.len()
    &&& contents.len() == reads.len() + 1
    &&& contents[0].replay@ == Seq::<WalRecord>::empty()
    &&& contents[0].queues@ == Map::<Seq<char>, ()>::empty()
    &&& contents[0].gc@.objects == Map::<u64, Pins>::empty()
    &&& forall|i: int|
        0 <= i < reads.len() ==> adds_object(
            contents[i],
            contents[i + 1],
            ids[i],
            #[trigger] reads[i],
            Ok(()),
        )
}

/// The contents of a log are those of all its data objects, in order: their records, their queues,
/// and what pins each of them. Fences, and objects that were collected, add nothing.
pub proof fn contents_are_those_of_all_data_objects(
    ids: Seq<WalId>,
    reads: Seq<ObjectRead>,
    contents: Seq<LogContents>,
)
    requires
        added_one_by_one(ids, reads, contents),
    ensures
        reader::record_models(contents.last().replay@) == log_records(reads, reads.len()),
        contents.last().queues@.dom() == log_queues(reads, reads.len()),
        contents.last().gc@.objects == log_pins(ids, reads, reads.len()),
{
    lemma_contents_add_up(ids, reads, contents, reads.len());
}

proof fn lemma_contents_add_up(
    ids: Seq<WalId>,
    reads: Seq<ObjectRead>,
    contents: Seq<LogContents>,
    n: nat,
)
    requires
        added_one_by_one(ids, reads, contents),
        n <= reads.len(),
    ensures
        reader::record_models(contents[n as int].replay@) == log_records(reads, n),
        contents[n as int].queues@.dom() == log_queues(reads, n),
        contents[n as int].gc@.objects == log_pins(ids, reads, n),
    decreases n,
{
    if n == 0 {
        assert(reader::record_models(contents[0].replay@) =~= seq![]);
        assert(contents[0].queues@.dom() =~= Set::empty());
    } else {
        lemma_contents_add_up(ids, reads, contents, (n - 1) as nat);
        let read = reads[n - 1];
        assert(adds_object(contents[n - 1], contents[n as int], ids[n - 1], read, Ok(())));
    }
}

/// Opening a log replays exactly the records of its data objects: every one of them, and no other.
pub proof fn opened_logs_replay_every_record(
    ids: Seq<WalId>,
    reads: Seq<ObjectRead>,
    contents: Seq<LogContents>,
    replay: Seq<WalRecord>,
    record: RecordModel,
)
    requires
        added_one_by_one(ids, reads, contents),
        forall|queue_id: Seq<char>, position: u64| #[trigger]
            records_at(replay, queue_id, position) == records_at(
                contents.last().replay@,
                queue_id,
                position,
            ),
    ensures
        reader::record_models(replay).contains(record) == log_records(
            reads,
            reads.len(),
        ).contains(record),
{
    contents_are_those_of_all_data_objects(ids, reads, contents);
    let kept = contents.last().replay@;
    if reader::record_models(kept).contains(record) {
        lemma_same_records_at(kept, replay, record);
    }
    if reader::record_models(replay).contains(record) {
        lemma_same_records_at(replay, kept, record);
    }
}

proof fn lemma_filtered_is_contained(
    records: Seq<WalRecord>,
    keep: spec_fn(WalRecord) -> bool,
    record: WalRecord,
)
    requires
        records.filter(keep).contains(record),
    ensures
        records.contains(record),
    decreases records.len(),
{
    reveal(Seq::filter);
    if records.len() > 0 {
        let shorter = records.drop_last();
        let before = shorter.filter(keep);
        let all = records.filter(keep);
        let i = choose|i: int| 0 <= i < all.len() && all[i] == record;
        if i < before.len() {
            assert(before[i] == record);
            lemma_filtered_is_contained(shorter, keep, record);
            let j = choose|j: int| 0 <= j < shorter.len() && shorter[j] == record;
            assert(records[j] == record);
        } else {
            assert(records.last() == record);
        }
    }
}

proof fn lemma_same_records_at(a: Seq<WalRecord>, b: Seq<WalRecord>, record: RecordModel)
    requires
        forall|queue_id: Seq<char>, position: u64| #[trigger]
            records_at(a, queue_id, position) == records_at(b, queue_id, position),
        reader::record_models(a).contains(record),
    ensures
        reader::record_models(b).contains(record),
{
    let i = choose|i: int| 0 <= i < a.len() && reader::record_models(a)[i] == record;
    let found = a[i];
    let is_there = |r: WalRecord|
        r.queue_id@ == found.queue_id@ && r.position == found.position;
    assert(records_at(a, found.queue_id@, found.position) == a.filter(is_there));
    assert(records_at(b, found.queue_id@, found.position) == b.filter(is_there));
    a.lemma_filter_contains(is_there, i);
    lemma_filtered_is_contained(b, is_there, found);
    let k = choose|k: int| 0 <= k < b.len() && b[k] == found;
    assert(reader::record_models(b)[k] == record);
}

proof fn lemma_block_records(block: BlockModel, k: int, n: nat)
    requires
        0 <= k < n <= block.records.len(),
    ensures
        reader::records_from(
            block.queue_id,
            block.first_position as int,
            block.records,
            0,
            n,
        ).contains(
            RecordModel {
                queue_id: block.queue_id,
                position: block.first_position + k,
                record: block.records[k],
            },
        ),
    decreases n,
{
    let before = reader::records_from(
        block.queue_id,
        block.first_position as int,
        block.records,
        0,
        (n - 1) as nat,
    );
    let last = RecordModel {
        queue_id: block.queue_id,
        position: block.first_position + n - 1,
        record: block.records[n - 1],
    };
    let all = before.push(last);
    if k < n - 1 {
        lemma_block_records(block, k, (n - 1) as nat);
        let wanted = RecordModel {
            queue_id: block.queue_id,
            position: block.first_position + k,
            record: block.records[k],
        };
        let j = choose|j: int| 0 <= j < before.len() && before[j] == wanted;
        assert(all[j] == wanted);
    } else {
        assert(all[before.len() as int] == last);
    }
}

proof fn lemma_object_records(blocks: Seq<BlockModel>, b: int, k: int, n: nat)
    requires
        0 <= b < n <= blocks.len(),
        0 <= k < blocks[b].records.len(),
    ensures
        object_records(blocks, n).contains(
            RecordModel {
                queue_id: blocks[b].queue_id,
                position: blocks[b].first_position + k,
                record: blocks[b].records[k],
            },
        ),
    decreases n,
{
    let wanted = RecordModel {
        queue_id: blocks[b].queue_id,
        position: blocks[b].first_position + k,
        record: blocks[b].records[k],
    };
    let before = object_records(blocks, (n - 1) as nat);
    let block = blocks[n - 1];
    let added = reader::records_from(
        block.queue_id,
        block.first_position as int,
        block.records,
        0,
        block.records.len(),
    );
    if b < n - 1 {
        lemma_object_records(blocks, b, k, (n - 1) as nat);
        let j = choose|j: int| 0 <= j < before.len() && before[j] == wanted;
        assert((before + added)[j] == wanted);
    } else {
        lemma_block_records(block, k, block.records.len());
        let j = choose|j: int| 0 <= j < added.len() && added[j] == wanted;
        assert((before + added)[before.len() + j] == wanted);
    }
}

/// Nothing that was appended is lost: the blocks of an object replay every record that was appended
/// to it, at the position it was appended at.
pub proof fn appended_records_are_replayed(
    blocks: Seq<BlockModel>,
    queue_id: Seq<char>,
    first_position: u64,
    records: Seq<Seq<u8>>,
    i: int,
)
    requires
        0 <= i < records.len(),
    ensures
        object_records(
            writer::with_records(blocks, queue_id, first_position, records),
            writer::with_records(blocks, queue_id, first_position, records).len(),
        ).contains(
            RecordModel { queue_id, position: first_position + i, record: records[i] },
        ),
{
    let written = writer::with_records(blocks, queue_id, first_position, records);
    writer::last_block_is_of_the_queue(blocks, queue_id);
    match writer::last_block_of(blocks, queue_id) {
        Some(b) => {
            if blocks[b].first_position + blocks[b].records.len() == first_position {
                let k = blocks[b].records.len() + i;
                assert(written[b].records[k] == records[i]);
                lemma_object_records(written, b, k, written.len());
            } else {
                lemma_object_records(written, blocks.len() as int, i, written.len());
            }
        },
        None => {
            lemma_object_records(written, blocks.len() as int, i, written.len());
        },
    }
}

/// An object is collected only once every queue in it is truncated past its last record there, or
/// deleted.
pub proof fn collected_objects_hold_nothing_live(gc: GcModel, durable: u64, id: u64, block: BlockModel)
    requires
        gc.can_collect(durable, id),
        block.records.len() > 0,
        block_pinned(gc.objects[id], block),
        !gc.deleted.contains(block.queue_id),
    ensures
        gc.truncated.contains_key(block.queue_id),
        gc.truncated[block.queue_id] >= block.first_position + block.records.len() - 1,
{
    assert(gc.objects[id].contains_key(block.queue_id));
}

/// An object that holds the marker of a queue is retained until the queue is deleted, whatever else
/// it holds and however far the queue is truncated.
pub proof fn marked_objects_are_kept_until_deletion(
    gc: GcModel,
    durable: u64,
    id: u64,
    block: BlockModel,
)
    requires
        gc.can_collect(durable, id),
        block.records.len() == 0,
        block_pinned(gc.objects[id], block),
    ensures
        gc.deleted.contains(block.queue_id),
{
    assert(gc.objects[id].contains_key(block.queue_id));
}

/// Every block of an object that was read when the log was opened pins it.
pub proof fn opened_objects_are_pinned(blocks: Seq<BlockModel>, n: nat, i: int)
    requires
        0 <= i < n <= blocks.len(),
        blocks_fit(blocks),
    ensures
        block_pinned(object_pins(blocks, n), blocks[i]),
    decreases n,
{
    assert(writer::block_positions_fit(blocks[i]));
    assert(writer::block_positions_fit(blocks[n - 1]));
    if i < n - 1 {
        opened_objects_are_pinned(blocks, (n - 1) as nat, i);
    }
}

/// What is covered stays covered when a queue is truncated further.
pub proof fn truncation_keeps_coverage(
    gc: GcModel,
    queue_id: Seq<char>,
    position: u64,
    other: Seq<char>,
    last_position: Option<u64>,
)
    requires
        gc.covers(other, last_position),
    ensures
        ({
            let later = GcModel {
                truncated: gc.truncated.insert(
                    queue_id,
                    if gc.truncated.contains_key(queue_id) {
                        later_of(gc.truncated[queue_id], position)
                    } else {
                        position
                    },
                ),
                ..gc
            };
            later.covers(other, last_position)
        }),
{
}

/// What is covered stays covered when a queue is deleted.
pub proof fn deletion_keeps_coverage(
    gc: GcModel,
    queue_id: Seq<char>,
    other: Seq<char>,
    last_position: Option<u64>,
)
    requires
        gc.covers(other, last_position),
    ensures
        ({
            let later = GcModel {
                truncated: gc.truncated.remove(queue_id),
                deleted: gc.deleted.insert(queue_id),
                ..gc
            };
            later.covers(other, last_position) && later.covers(queue_id, None)
        }),
{
}

/// Records are ordered by queue, and those of a queue by position: of two that differ in either, exactly
/// one comes first.
pub proof fn records_are_ordered_by_queue_then_position(a: WalRecord, b: WalRecord)
    ensures
        a.queue_id@ == b.queue_id@ ==> (record_before(a, b) <==> a.position < b.position),
        a.queue_id@ != b.queue_id@ ==> (record_before(a, b) <==> text::text_before(
            a.queue_id@,
            b.queue_id@,
        )),
        !(record_before(a, b) && record_before(b, a)),
        record_before(a, b) || record_before(b, a) || (a.queue_id@ == b.queue_id@ && a.position
            == b.position),
{
    text::texts_are_ordered(a.queue_id@, b.queue_id@);
}

/// A log gives the records of its data objects, object by object in their order. A fence, and an object
/// that was collected or cannot be read, gives none.
pub proof fn logs_give_the_records_of_their_data_objects(reads: Seq<ObjectRead>, n: nat)
    requires
        n < reads.len(),
    ensures
        log_records(reads, 0).len() == 0,
        reads[n as int] is Err ==> log_records(reads, n + 1) == log_records(reads, n),
        reads[n as int] matches Ok((header, blocks)) ==> {
            &&& header.is_fence ==> log_records(reads, n + 1) == log_records(reads, n)
            &&& !header.is_fence ==> log_records(reads, n + 1) == log_records(reads, n)
                + object_records(wal::format::block_models(blocks@), blocks@.len())
        },
{
}

} // verus!
