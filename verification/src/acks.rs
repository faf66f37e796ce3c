//! Applies shard replication positions once per WAL flush.
//!
//! A persist request records the positions it wrote under the id of the log object that will hold
//! them, then waits. When that object is durable, every position recorded for it (and earlier ids)
//! is advanced at once, and the id is reported as applied.

use vstd::prelude::*;

use crate::id_map::IdMap;
#[allow(unused_imports)]
use crate::id_map;
use crate::position::Position;
use crate::wal::writer::Durability;
use crate::wal::WalId;

verus! {

/// The position that a queue is replicated up to.
pub struct QueuePosition {
    pub queue_id: String,
    pub position: Position,
}

/// Queues and positions, as a list holds them.
pub open spec fn queue_positions(list: Seq<QueuePosition>) -> Seq<(Seq<char>, Position)> {
    Seq::new(list.len(), |i: int| (list[i].queue_id@, list[i].position))
}

/// The positions of the first `n` lists, one list behind the other.
pub open spec fn flattened(lists: Seq<Vec<QueuePosition>>, n: nat) -> Seq<(Seq<char>, Position)>
    decreases n,
{
    if n == 0 {
        seq![]
    } else {
        flattened(lists, (n - 1) as nat) + queue_positions(lists[n - 1]@)
    }
}

/// Records positions per WAL object and applies them when the object is durable.
pub struct ObjectWalAckApplier {
    pending: IdMap<Vec<QueuePosition>>,
}

/// What to do about a durability event.
pub enum ApplyStep {
    /// Advance these positions, in order, then report the event to those who wait.
    Apply(Vec<QueuePosition>, Durability),
    /// Report the event and stop: nothing further will become durable.
    Stop(Durability),
}

impl ObjectWalAckApplier {
    pub closed spec fn well_formed(self) -> bool {
        self.pending.well_formed()
    }

    /// The positions that wait for an object.
    pub closed spec fn waiting_for(self, id: u64) -> Seq<(Seq<char>, Position)> {
        if self.pending@.contains_key(id) {
            queue_positions(self.pending@[id]@)
        } else {
            seq![]
        }
    }

    /// The positions that wait for objects up to an id, in the order of the ids.
    pub closed spec fn waiting_up_to(self, id: u64) -> Seq<(Seq<char>, Position)> {
        flattened(self.pending.values(), self.pending.count_up_to(id))
    }

    pub fn new() -> (applier: Self)
        ensures
            applier.well_formed(),
            forall|id: u64| #[trigger] applier.waiting_for(id) == Seq::<(Seq<char>, Position)>::empty(),
    {
        ObjectWalAckApplier { pending: IdMap::new() }
    }

    /// Records that `positions` become the replication positions of their shards once `wal_id`
    /// is durable.
    pub fn record(&mut self, wal_id: WalId, positions: Vec<QueuePosition>)
        requires
            old(self).well_formed(),
        ensures
            final(self).well_formed(),
            final(self).waiting_for(wal_id.0) == old(self).waiting_for(wal_id.0)
                + queue_positions(positions@),
            forall|id: u64|
                id != wal_id.0 ==> #[trigger] final(self).waiting_for(id) == old(self).waiting_for(
                    id,
                ),
    {
        let ghost added = queue_positions(positions@);
        let mut positions = positions;
        let mut list: Vec<QueuePosition> = match self.pending.remove(wal_id.0) {
            Some(list) => list,
            None => Vec::new(),
        };
        let ghost before = queue_positions(list@);
        assert(before =~= old(self).waiting_for(wal_id.0));
        list.append(&mut positions);
        assert(queue_positions(list@) =~= before + added);
        self.pending.insert(wal_id.0, list);
    }

    fn drain_up_to(&mut self, durable_wal_id: WalId) -> (positions: Vec<QueuePosition>)
        requires
            old(self).well_formed(),
        ensures
            final(self).well_formed(),
            queue_positions(positions@) == old(self).waiting_up_to(durable_wal_id.0),
            forall|id: u64|
                #![trigger final(self).waiting_for(id)]
                final(self).waiting_for(id) == if id <= durable_wal_id.0 {
                    seq![]
                } else {
                    old(self).waiting_for(id)
                },
    {
        let ghost before = *self;
        let drained = self.pending.drain_up_to(durable_wal_id.0);
        let ghost n = drained@.len();
        let ghost lists = drained@;
        let mut drained = drained;
        let mut positions: Vec<QueuePosition> = Vec::new();
        let ghost mut i: nat = 0;
        assert(queue_positions(positions@) =~= seq![]);
        while drained.len() > 0
            invariant
                i + drained@.len() == n,
                n == lists.len(),
                drained@ == lists.skip(i as int),
                queue_positions(positions@) == flattened(lists, i),
            decreases drained@.len(),
        {
            let mut list = drained.remove(0);
            let ghost so_far = queue_positions(positions@);
            let ghost added = queue_positions(list@);
            positions.append(&mut list);
            assert(queue_positions(positions@) =~= so_far + added);
            assert(drained@ =~= lists.skip(i as int + 1));
            proof {
                i = i + 1;
            }
        }
        proof {
            lemma_flattened_prefix(lists, before.pending.values(), n);
            assert forall|id: u64| #![trigger self.waiting_for(id)]
                self.waiting_for(id) == if id <= durable_wal_id.0 {
                    seq![]
                } else {
                    before.waiting_for(id)
                } by {
                assert(self.pending@.contains_key(id) <==> before.pending@.contains_key(id) && id
                    > durable_wal_id.0);
            }
        }
        positions
    }

    /// Decides what a durability event calls for.
    pub fn on_durability(&mut self, event: Durability) -> (step: ApplyStep)
        requires
            old(self).well_formed(),
        ensures
            final(self).well_formed(),
            match event {
                Durability::Flushed(id) => {
                    &&& step matches ApplyStep::Apply(positions, reported) && reported == event
                        && queue_positions(positions@) == old(self).waiting_up_to(id.0)
                    &&& forall|other: u64| #![trigger final(self).waiting_for(other)]
                        final(self).waiting_for(other) == if other <= id.0 {
                            seq![]
                        } else {
                            old(self).waiting_for(other)
                        }
                },
                Durability::Failed(_) => {
                    &&& step == ApplyStep::Stop(event)
                    &&& forall|other: u64| #[trigger] final(self).waiting_for(other) == Seq::<
                        (Seq<char>, Position),
                    >::empty()
                },
            },
    {
        match event {
            Durability::Flushed(id) => {
                let positions = self.drain_up_to(id);
                ApplyStep::Apply(positions, Durability::Flushed(id))
            },
            Durability::Failed(error) => {
                self.pending = IdMap::new();
                ApplyStep::Stop(Durability::Failed(error))
            },
        }
    }
}

proof fn lemma_flattened_prefix(
    part: Seq<Vec<QueuePosition>>,
    whole: Seq<Vec<QueuePosition>>,
    n: nat,
)
    requires
        n <= part.len() <= whole.len(),
        part == whole.take(part.len() as int),
    ensures
        flattened(part, n) == flattened(whole, n),
    decreases n,
{
    if n > 0 {
        lemma_flattened_prefix(part, whole, (n - 1) as nat);
    }
}

impl ObjectWalAckApplier {
    /// A position that waits for an object is applied as soon as that object, or a later one, is
    /// durable.
    pub proof fn recorded_positions_are_applied(self, id: u64, durable: u64, i: int)
        requires
            self.well_formed(),
            id <= durable,
            0 <= i < self.waiting_for(id).len(),
        ensures
            self.waiting_up_to(durable).contains(self.waiting_for(id)[i]),
    {
        let ids = self.pending.ids();
        let k = ids.index_of(id);
        assert(ids.contains(id));
        assert(ids[k] == id);
        lemma_count_reaches(ids, durable, k);
        lemma_flattened_contains(self.pending.values(), self.pending.count_up_to(durable), k, i);
        self.pending.entry_at(k);
    }
}

proof fn lemma_count_reaches(ids: Seq<u64>, id: u64, k: int)
    requires
        0 <= k < ids.len(),
        ids[k] <= id,
        forall|i: int, j: int| 0 <= i < j < ids.len() ==> ids[i] < ids[j],
    ensures
        k < id_map::ids_up_to(ids, id),
    decreases ids.len(),
{
    if k > 0 {
        assert(ids[0] < ids[k]);
        lemma_count_reaches(ids.skip(1), id, k - 1);
    }
}

proof fn lemma_flattened_contains(lists: Seq<Vec<QueuePosition>>, n: nat, k: int, i: int)
    requires
        0 <= k < n,
        0 <= i < queue_positions(lists[k]@).len(),
    ensures
        flattened(lists, n).contains(queue_positions(lists[k]@)[i]),
    decreases n,
{
    let last = queue_positions(lists[n - 1]@);
    let before = flattened(lists, (n - 1) as nat);
    let item = queue_positions(lists[k]@)[i];
    if k == n - 1 {
        assert(flattened(lists, n)[before.len() + i] == item);
    } else {
        lemma_flattened_contains(lists, (n - 1) as nat, k, i);
        let j = before.index_of(item);
        assert(before[j] == item);
        assert(flattened(lists, n)[j] == item);
    }
}

impl ObjectWalAckApplier {
    /// A position is applied only once the object that it waits for is durable: whatever is applied
    /// waits for that object or an earlier one.
    pub proof fn only_durable_positions_are_applied(self, durable: u64, i: int)
        requires
            self.well_formed(),
            0 <= i < self.waiting_up_to(durable).len(),
        ensures
            exists|id: u64|
                id <= durable && (#[trigger] self.waiting_for(id)).contains(
                    self.waiting_up_to(durable)[i],
                ),
    {
        let ids = self.pending.ids();
        let n = self.pending.count_up_to(durable);
        if ids.len() > 0 {
            id_map::numbers_up_to_a_number_are_in_front(ids, durable, 0);
        }
        lemma_flattened_is_of_a_list(self.pending.values(), n, i);
        let item = self.waiting_up_to(durable)[i];
        let k = choose|k: int|
            0 <= k < n && (#[trigger] queue_positions(self.pending.values()[k]@)).contains(item);
        id_map::numbers_up_to_a_number_are_in_front(ids, durable, k);
        self.pending.entry_at(k);
        assert(self.waiting_for(ids[k]).contains(item));
    }
}

proof fn lemma_flattened_is_of_a_list(lists: Seq<Vec<QueuePosition>>, n: nat, i: int)
    requires
        0 <= i < flattened(lists, n).len(),
    ensures
        exists|k: int|
            0 <= k < n && (#[trigger] queue_positions(lists[k]@)).contains(flattened(lists, n)[i]),
    decreases n,
{
    let before = flattened(lists, (n - 1) as nat);
    let last = queue_positions(lists[n - 1]@);
    if i < before.len() {
        lemma_flattened_is_of_a_list(lists, (n - 1) as nat, i);
        let k = choose|k: int|
            0 <= k < n - 1 && (#[trigger] queue_positions(lists[k]@)).contains(before[i]);
        assert(queue_positions(lists[k]@).contains(flattened(lists, n)[i]));
    } else {
        assert(last[i - before.len()] == flattened(lists, n)[i]);
        assert(queue_positions(lists[n - 1]@).contains(flattened(lists, n)[i]));
    }
}

/// Positions are told with their queues, one by one.
pub proof fn positions_go_with_their_queues(list: Seq<QueuePosition>, i: int)
    requires
        0 <= i < list.len(),
    ensures
        queue_positions(list).len() == list.len(),
        queue_positions(list)[i].0 == list[i].queue_id@,
        queue_positions(list)[i].1 == list[i].position,
{
}

/// Positions of several objects are applied object by object, and all of them.
pub proof fn positions_are_applied_object_by_object(lists: Seq<Vec<QueuePosition>>, n: nat)
    requires
        n < lists.len(),
    ensures
        flattened(lists, 0).len() == 0,
        flattened(lists, n + 1).len() == flattened(lists, n).len() + lists[n as int]@.len(),
        forall|i: int|
            0 <= i < flattened(lists, n).len() ==> #[trigger] flattened(lists, n + 1)[i]
                == flattened(lists, n)[i],
{
}

} // verus!
