//! In-memory per-shard record buffer.
//!
//! With the object-store log providing durability, the local copy of a shard's records only serves
//! fetch streams until the records are indexed and the shard truncated. Positions are consecutive
//! `u64`s, assigned at append. The usage of all queues of a node is tracked for backpressure.

use std::collections::VecDeque;

use bytes::Bytes;
use vstd::prelude::*;

#[allow(unused_imports)]
use crate::buffer;
use crate::buffer::{buffers_len, bytes_as_slice};

verus! {

/// Node-wide accounting of buffered bytes, shared by all queues of an ingester. The counters wrap.
#[derive(Debug, Default)]
pub struct MemQueueUsage {
    num_bytes: u64,
    num_records: u64,
}

impl MemQueueUsage {
    /// The counter of buffered bytes.
    pub closed spec fn byte_count(self) -> u64 {
        self.num_bytes
    }

    /// The counter of buffered records.
    pub closed spec fn record_count(self) -> u64 {
        self.num_records
    }

    /// Nothing is buffered.
    pub fn new() -> (usage: Self)
        ensures
            usage.byte_count() == 0,
            usage.record_count() == 0,
    {
        MemQueueUsage { num_bytes: 0, num_records: 0 }
    }

    pub fn num_bytes(&self) -> (num_bytes: u64)
        ensures
            num_bytes == self.byte_count(),
    {
        self.num_bytes
    }

    pub fn num_records(&self) -> (num_records: u64)
        ensures
            num_records == self.record_count(),
    {
        self.num_records
    }

    fn count_in(&mut self, num_bytes: u64, num_records: u64)
        ensures
            final(self).byte_count() == counted_in(old(self).byte_count(), num_bytes as int),
            final(self).record_count() == counted_in(old(self).record_count(), num_records as int),
    {
        self.num_bytes = self.num_bytes.wrapping_add(num_bytes);
        self.num_records = self.num_records.wrapping_add(num_records);
    }

    fn count_out(&mut self, num_bytes: u64, num_records: u64)
        ensures
            final(self).byte_count() == counted_in(old(self).byte_count(), -num_bytes),
            final(self).record_count() == counted_in(old(self).record_count(), -num_records),
    {
        self.num_bytes = self.num_bytes.wrapping_sub(num_bytes);
        self.num_records = self.num_records.wrapping_sub(num_records);
    }
}

/// A counter of 64 bits after a change: it wraps at both ends.
pub open spec fn counted_in(counter: u64, change: int) -> u64 {
    ((counter + change) % 0x1_0000_0000_0000_0000) as u64
}

/// What a queue holds: the records it retains with their positions, in ascending order, and where
/// it goes on.
#[verifier::ext_equal]
pub struct QueueModel {
    pub records: Seq<(int, Seq<u8>)>,
    /// The position that the next appended record gets.
    pub next_position: int,
    /// The position of the last record that was ever appended.
    pub last_appended: Option<u64>,
}

impl QueueModel {
    /// A queue that never held a record.
    pub open spec fn fresh(next_position: int) -> QueueModel {
        QueueModel { records: seq![], next_position, last_appended: None }
    }

    /// The position of the first retained record, or the next position when there is none.
    pub open spec fn first_position(self) -> int {
        if self.records.len() == 0 {
            self.next_position
        } else {
            self.records[0].0
        }
    }

    /// The bytes of the retained records.
    pub open spec fn num_bytes(self) -> nat {
        pairs_len(self.records)
    }

    /// The records at positions from `start` up to, not including, `end`, with their positions.
    pub open spec fn between(self, start: int, end: int) -> Seq<(int, Seq<u8>)> {
        within(self.records, start, end)
    }

    /// The queue with records put at consecutive positions from its end on.
    pub open spec fn with_records(self, list: Seq<Seq<u8>>) -> QueueModel {
        QueueModel {
            records: self.records + placed(self.next_position, list),
            next_position: self.next_position + list.len(),
            last_appended: Some((self.next_position + list.len() - 1) as u64),
        }
    }

    /// The queue with a record put at a position at or behind its end.
    pub open spec fn with_record_at(self, position: int, record: Seq<u8>) -> QueueModel {
        QueueModel {
            records: self.records.push((position, record)),
            next_position: position + 1,
            last_appended: Some(position as u64),
        }
    }

    /// The queue without the records up to a position. Truncating past the end moves the queue on.
    pub open spec fn truncated(self, position: int) -> QueueModel {
        QueueModel {
            records: self.between(position + 1, self.next_position),
            next_position: if self.next_position <= position {
                position + 1
            } else {
                self.next_position
            },
            ..self
        }
    }

    /// The records that truncation drops.
    pub open spec fn dropped(self, position: int) -> Seq<(int, Seq<u8>)> {
        self.between(0, position + 1)
    }

    /// The queue without its records.
    pub open spec fn cleared(self) -> QueueModel {
        QueueModel { records: seq![], ..self }
    }
}

/// Records at consecutive positions.
pub open spec fn placed(first: int, list: Seq<Seq<u8>>) -> Seq<(int, Seq<u8>)> {
    Seq::new(list.len(), |i: int| (first + i, list[i]))
}

/// Those of the records whose positions lie from `start` up to, not including, `end`.
pub open spec fn within(list: Seq<(int, Seq<u8>)>, start: int, end: int) -> Seq<(int, Seq<u8>)>
    decreases list.len(),
{
    if list.len() == 0 {
        seq![]
    } else {
        let before = within(list.drop_last(), start, end);
        if start <= list.last().0 < end {
            before.push(list.last())
        } else {
            before
        }
    }
}

/// Whether the usage has changed as much as a queue has.
pub open spec fn usage_follows(
    before: MemQueueUsage,
    after: MemQueueUsage,
    from: QueueModel,
    to: QueueModel,
) -> bool {
    &&& after.byte_count() == counted_in(before.byte_count(), to.num_bytes() - from.num_bytes())
    &&& after.record_count() == counted_in(
        before.record_count(),
        to.records.len() - from.records.len(),
    )
}

/// One end of a range of positions.
#[derive(Clone, Copy, Debug, PartialEq, Eq, Structural)]
pub enum PositionBound {
    Included(u64),
    Excluded(u64),
    Unbounded,
}

/// Positions and records, as a list of pairs holds them.
pub open spec fn pairs(list: Seq<(u64, Bytes)>) -> Seq<(int, Seq<u8>)> {
    Seq::new(list.len(), |i: int| (list[i].0 as int, buffer::bytes_content(list[i].1)))
}

/// The bytes of the records of a list, counted together.
pub open spec fn pairs_len(list: Seq<(int, Seq<u8>)>) -> nat
    decreases list.len(),
{
    if list.len() == 0 {
        0
    } else {
        pairs_len(list.drop_last()) + list.last().1.len()
    }
}

/// Whether `taken` is what a cap on the bytes leaves of `all`: the first record whatever its size,
/// then records as long as the total stays within the cap.
pub open spec fn capped(all: Seq<(int, Seq<u8>)>, cap: int, taken: Seq<(int, Seq<u8>)>) -> bool {
    &&& taken.len() <= all.len()
    &&& taken == all.take(taken.len() as int)
    &&& forall|n: int| 1 < n <= taken.len() ==> pairs_len(#[trigger] all.take(n)) <= cap
    &&& taken.len() < all.len() ==> taken.len() > 0 && pairs_len(
        all.take(taken.len() as int + 1),
    ) > cap
}

/// One shard's records, in memory.
pub struct MemQueue {
    /// Position the next appended record gets.
    next_position: u64,
    /// Position of the last record that was ever appended.
    last_appended: Option<u64>,
    /// The retained records with their positions, in ascending order.
    records: VecDeque<(u64, Bytes)>,
    num_bytes: u64,
}

impl View for MemQueue {
    type V = QueueModel;

    closed spec fn view(&self) -> QueueModel {
        QueueModel {
            records: pairs(self.records@),
            next_position: self.next_position as int,
            last_appended: self.last_appended,
        }
    }
}

impl MemQueue {
    /// Whether the records stand in order before the next position, and the queue's own
    /// bookkeeping agrees with them.
    pub closed spec fn well_formed(self) -> bool {
        &&& in_order(self@.records)
        &&& self@.records.len() > 0 ==> self@.records.last().0 < self.next_position
        &&& self@.records.len() > 0 ==> self.last_appended is Some
        &&& self.last_appended matches Some(last) ==> last < self.next_position
        &&& self.num_bytes == self@.num_bytes()
    }

    /// What well-formed bookkeeping says of the records.
    pub proof fn well_formed_bounds(self)
        requires
            self.well_formed(),
        ensures
            in_order(self@.records),
            forall|i: int|
                0 <= i < self@.records.len() ==> 0 <= (#[trigger] self@.records[i]).0
                    < self@.next_position,
            0 <= self@.first_position() <= self@.next_position <= u64::MAX,
            self@.records.len() > 0 ==> self@.last_appended is Some,
            self@.last_appended matches Some(last) ==> last < self@.next_position,
            self@.num_bytes() <= u64::MAX,
    {
        assert forall|i: int| 0 <= i < self@.records.len() implies 0 <= (
        #[trigger] self@.records[i]).0 < self@.next_position by {
            assert(self@.records[i].0 <= self@.records.last().0);
        }
    }

    /// An empty queue whose next record gets position `next_position`.
    pub fn new(next_position: u64) -> (queue: Self)
        ensures
            queue.well_formed(),
            queue@ == QueueModel::fresh(next_position as int),
    {
        let queue = MemQueue {
            next_position,
            last_appended: None,
            records: VecDeque::new(),
            num_bytes: 0,
        };
        assert(queue@.records =~= seq![]);
        queue
    }

    /// Appends records at consecutive positions and returns the position of the last one.
    pub fn append(&mut self, usage: &mut MemQueueUsage, records: Vec<Bytes>) -> (last_position: u64)
        requires
            old(self).well_formed(),
            records@.len() > 0,
            old(self)@.next_position + records@.len() <= u64::MAX,
            old(self)@.num_bytes() + buffer::total_len(buffer::contents(records@)) <= u64::MAX,
        ensures
            final(self).well_formed(),
            final(self)@ == old(self)@.with_records(buffer::contents(records@)),
            last_position == final(self)@.next_position - 1,
            final(usage).byte_count() == counted_in(
                old(usage).byte_count(),
                buffer::total_len(buffer::contents(records@)) as int,
            ),
            final(usage).record_count() == counted_in(
                old(usage).record_count(),
                records@.len() as int,
            ),
            usage_follows(*old(usage), *final(usage), old(self)@, final(self)@),
    {
        let num_bytes: u64 = buffers_len(&records);
        let num_records: u64 = records.len() as u64;
        let ghost before = self@.records;
        let ghost added = placed(self.next_position as int, buffer::contents(records@));
        proof {
            old(self).well_formed_bounds();
        }
        let mut i: usize = 0;
        assert(before + added.take(0) =~= before);
        while i < records.len()
            invariant
                i <= records.len(),
                old(self)@.next_position + records@.len() <= u64::MAX,
                added == placed(old(self).next_position as int, buffer::contents(records@)),
                self@.records == before + added.take(i as int),
                self.next_position == old(self).next_position,
                self.last_appended == old(self).last_appended,
                self.num_bytes == old(self).num_bytes,
            decreases records.len() - i,
        {
            let ghost so_far = self@.records;
            let record = records[i].clone();
            self.records.push_back((self.next_position + i as u64, record));
            assert(self@.records =~= so_far.push(added[i as int]));
            assert(added.take(i + 1) =~= added.take(i as int).push(added[i as int]));
            assert(self@.records =~= before + added.take(i + 1));
            i = i + 1;
        }
        assert(added.take(records.len() as int) =~= added);
        proof {
            lemma_pairs_add_up(before, added);
            lemma_placed_len(old(self).next_position as int, buffer::contents(records@));
            assert(in_order(self@.records));
        }
        self.next_position = self.next_position + num_records;
        self.last_appended = Some(self.next_position - 1);
        self.num_bytes = self.num_bytes + num_bytes;
        usage.count_in(num_bytes, num_records);
        assert(self@ =~= old(self)@.with_records(buffer::contents(records@)));
        self.next_position - 1
    }

    /// Appends a record at an explicit position, for replay. Positions must not go backwards;
    /// gaps are allowed (they advance the next position). Returns `false` if the record is at or
    /// before an already present position (already replayed or truncated).
    pub fn append_at(&mut self, usage: &mut MemQueueUsage, position: u64, record: Bytes) -> (appended:
        bool)
        requires
            old(self).well_formed(),
            position < u64::MAX,
            old(self)@.num_bytes() + buffer::bytes_content(record).len() <= u64::MAX,
        ensures
            final(self).well_formed(),
            appended == (position >= old(self)@.next_position),
            !appended ==> *final(self) == *old(self) && *final(usage) == *old(usage),
            appended ==> final(self)@ == old(self)@.with_record_at(
                position as int,
                buffer::bytes_content(record),
            ) && final(usage).byte_count() == counted_in(
                old(usage).byte_count(),
                buffer::bytes_content(record).len() as int,
            ) && final(usage).record_count() == counted_in(old(usage).record_count(), 1),
            usage_follows(*old(usage), *final(usage), old(self)@, final(self)@),
    {
        if position < self.next_position {
            proof {
                lemma_counting_nothing(usage.byte_count());
                lemma_counting_nothing(usage.record_count());
            }
            return false;
        }
        proof {
            self.well_formed_bounds();
        }
        let ghost before = self@.records;
        let ghost content = buffer::bytes_content(record);
        let num_bytes: u64 = bytes_as_slice(&record).len() as u64;
        self.records.push_back((position, record));
        proof {
            assert(self@.records =~= before.push((position as int, content)));
            assert(self@.records.drop_last() =~= before);
        }
        self.next_position = position + 1;
        self.last_appended = Some(position);
        self.num_bytes = self.num_bytes + num_bytes;
        usage.count_in(num_bytes, 1);
        assert(self@ =~= old(self)@.with_record_at(position as int, content));
        true
    }

    /// How many of the records stand before a position.
    fn lower_bound(&self, position: u64) -> (index: usize)
        requires
            self.well_formed(),
        ensures
            index <= self@.records.len(),
            forall|i: int| 0 <= i < index ==> (#[trigger] self@.records[i]).0 < position,
            forall|i: int|
                index <= i < self@.records.len() ==> (#[trigger] self@.records[i]).0 >= position,
    {
        let mut low: usize = 0;
        let mut high: usize = self.records.len();
        while low < high
            invariant
                self.well_formed(),
                low <= high <= self@.records.len(),
                forall|i: int| 0 <= i < low ==> (#[trigger] self@.records[i]).0 < position,
                forall|i: int|
                    high <= i < self@.records.len() ==> (#[trigger] self@.records[i]).0 >= position,
            decreases high - low,
        {
            let middle: usize = low + (high - low) / 2;
            assert(self@.records[middle as int].0 == self.records@[middle as int].0);
            if self.records[middle].0 < position {
                assert forall|i: int| 0 <= i < middle + 1 implies (#[trigger] self@.records[i]).0
                    < position by {
                    assert(i < middle ==> self@.records[i].0 < self@.records[middle as int].0);
                }
                low = middle + 1;
            } else {
                assert forall|i: int| middle <= i < self@.records.len() implies (
                #[trigger] self@.records[i]).0 >= position by {
                    assert(middle < i ==> self@.records[middle as int].0 < self@.records[i].0);
                }
                high = middle;
            }
        }
        low
    }

    /// How many records stand at positions from `start` up to, not including, `end`.
    pub fn count_between(&self, start: u64, end: u64) -> (count: usize)
        requires
            self.well_formed(),
        ensures
            count == self@.between(start as int, end as int).len(),
    {
        let from: usize = self.lower_bound(start);
        let to: usize = self.lower_bound(end);
        if from < to {
            proof {
                lemma_within_is_subrange(
                    self@.records,
                    start as int,
                    end as int,
                    from as int,
                    to as int,
                );
            }
            to - from
        } else {
            proof {
                if from == to {
                    lemma_within_is_subrange(
                        self@.records,
                        start as int,
                        end as int,
                        from as int,
                        to as int,
                    );
                } else {
                    assert(self@.records[to as int].0 >= end);
                    assert(self@.records[to as int].0 < start);
                    lemma_within_nothing(self@.records, start as int, end as int);
                }
            }
            0
        }
    }

    /// Returns `(position, record)` pairs within the range, in order, stopping before the record
    /// that would take the total past `max_num_bytes` (at least one record is returned if any
    /// is in range).
    pub fn range(&self, start: PositionBound, end: PositionBound, max_num_bytes: usize) -> (out: Vec<
        (u64, Bytes),
    >)
        requires
            self.well_formed(),
            start != PositionBound::Excluded(u64::MAX),
        ensures
            capped(
                self@.between(range_start(start), range_end(self@, end)),
                max_num_bytes as int,
                pairs(out@),
            ),
    {
        let first: u64 = match start {
            PositionBound::Included(position) => position,
            PositionBound::Excluded(position) => position + 1,
            PositionBound::Unbounded => 0,
        };
        let past: u64 = match end {
            PositionBound::Included(position) => position.saturating_add(1),
            PositionBound::Excluded(position) => position,
            PositionBound::Unbounded => self.next_position,
        };
        let from: usize = self.lower_bound(first);
        let to: usize = self.lower_bound(past);
        let ghost all = self@.between(range_start(start), range_end(self@, end));
        let mut out: Vec<(u64, Bytes)> = Vec::new();
        proof {
            self.well_formed_bounds();
            if from <= to {
                lemma_within_is_subrange(
                    self@.records,
                    range_start(start),
                    range_end(self@, end),
                    from as int,
                    to as int,
                );
            } else {
                assert(first > past) by {
                    assert(self@.records[to as int].0 >= past);
                    assert(self@.records[to as int].0 < first);
                }
                lemma_within_nothing(self@.records, range_start(start), range_end(self@, end));
            }
            assert(pairs(out@) =~= all.take(0));
        }
        if from >= to {
            return out;
        }
        let mut total: u64 = 0;
        let mut i: usize = from;
        while i < to
            invariant
                self.well_formed(),
                from <= i <= to <= self@.records.len(),
                all == self@.records.subrange(from as int, to as int),
                all == self@.between(range_start(start), range_end(self@, end)),
                out@.len() == i - from,
                pairs(out@) == all.take(i - from),
                total == pairs_len(pairs(out@)),
                forall|n: int|
                    1 < n <= out@.len() ==> pairs_len(#[trigger] all.take(n)) <= max_num_bytes,
            decreases to - i,
        {
            let entry = &self.records[i];
            let position: u64 = entry.0;
            let len: u64 = bytes_as_slice(&entry.1).len() as u64;
            let ghost n = i - from;
            let ghost so_far = pairs(out@);
            proof {
                assert(all[n] == (position as int, buffer::bytes_content(entry.1)));
                assert(all.take(n + 1).drop_last() =~= all.take(n));
                assert(all.take(n + 1) =~= self@.records.subrange(from as int, i + 1));
                lemma_subrange_len(self@.records, from as int, i + 1);
            }
            if out.len() > 0 && total + len > max_num_bytes as u64 {
                return out;
            }
            total = total + len;
            let clone = entry.1.clone();
            out.push((position, clone));
            assert(pairs(out@) =~= all.take(n + 1));
            i = i + 1;
        }
        assert(all.take(out@.len() as int) =~= all);
        out
    }

    /// Drops every record at or before `position_inclusive`.
    pub fn truncate(&mut self, usage: &mut MemQueueUsage, position_inclusive: u64)
        requires
            old(self).well_formed(),
            position_inclusive < u64::MAX,
        ensures
            final(self).well_formed(),
            final(self)@ == old(self)@.truncated(position_inclusive as int),
            final(usage).byte_count() == counted_in(
                old(usage).byte_count(),
                -pairs_len(old(self)@.dropped(position_inclusive as int)),
            ),
            final(usage).record_count() == counted_in(
                old(usage).record_count(),
                -(old(self)@.dropped(position_inclusive as int).len() as int),
            ),
            usage_follows(*old(usage), *final(usage), old(self)@, final(self)@),
    {
        let ghost all = self@.records;
        proof {
            self.well_formed_bounds();
        }
        let num_records: usize = self.records.len();
        let num_dropped: usize = self.lower_bound(position_inclusive + 1);
        let mut freed_bytes: u64 = 0;
        let mut i: usize = 0;
        assert(all.take(0) =~= seq![]);
        assert(all.skip(0) =~= all);
        while i < num_dropped
            invariant
                i <= num_dropped <= num_records == all.len(),
                pairs_len(all) <= u64::MAX,
                self.next_position == old(self).next_position,
                self.last_appended == old(self).last_appended,
                self.num_bytes == old(self).num_bytes,
                self@.records == all.skip(i as int),
                freed_bytes == pairs_len(all.take(i as int)),
            decreases num_dropped - i,
        {
            let ghost rest = self@.records;
            assert(rest.len() == self.records@.len());
            assert(rest[0] == all[i as int]);
            match self.records.pop_front() {
                Some(entry) => {
                    let len: u64 = bytes_as_slice(&entry.1).len() as u64;
                    proof {
                        assert(rest[0] == (entry.0 as int, buffer::bytes_content(entry.1)));
                        assert(all.take(i + 1).drop_last() =~= all.take(i as int));
                        lemma_pairs_add_up(all.take(i + 1), all.skip(i + 1));
                        assert(all.take(i + 1) + all.skip(i + 1) =~= all);
                        assert(self@.records =~= rest.skip(1));
                        assert(rest.skip(1) =~= all.skip(i + 1));
                    }
                    freed_bytes = freed_bytes + len;
                },
                None => {},
            }
            i = i + 1;
        }
        let ghost n = num_dropped as int;
        proof {
            lemma_pairs_add_up(all.take(n), all.skip(n));
            assert(all.take(n) + all.skip(n) =~= all);
            lemma_within_is_subrange(all, 0, position_inclusive + 1, 0, n);
            assert(all.subrange(0, n) =~= all.take(n));
            if position_inclusive + 1 <= self.next_position {
                lemma_within_is_subrange(
                    all,
                    position_inclusive + 1,
                    self.next_position as int,
                    n,
                    all.len() as int,
                );
                assert(all.subrange(n, all.len() as int) =~= all.skip(n));
            } else {
                lemma_within_nothing(all, position_inclusive + 1, self.next_position as int);
                assert(n < all.len() ==> all[n].0 < self.next_position);
                assert(all.skip(n) =~= seq![]);
            }
        }
        if self.next_position <= position_inclusive {
            // Truncating past the end: the next append continues after the position.
            self.next_position = position_inclusive + 1;
        }
        self.num_bytes = self.num_bytes - freed_bytes;
        usage.count_out(freed_bytes, num_dropped as u64);
        assert(self@ =~= old(self)@.truncated(position_inclusive as int));
    }

    /// Position the next appended record gets.
    pub fn next_position(&self) -> (position: u64)
        ensures
            position == self@.next_position,
    {
        self.next_position
    }

    /// Position of the last record, if any record was ever appended.
    pub fn last_position(&self) -> (position: Option<u64>)
        ensures
            position == self@.last_appended,
    {
        self.last_appended
    }

    /// Position of the first retained record (the next position when empty).
    pub fn first_position(&self) -> (position: u64)
        ensures
            position == self@.first_position(),
    {
        if self.records.len() == 0 {
            self.next_position
        } else {
            assert(self@.records[0].0 == self.records@[0].0);
            self.records[0].0
        }
    }

    pub fn num_bytes(&self) -> (num_bytes: u64)
        requires
            self.well_formed(),
        ensures
            num_bytes == self@.num_bytes(),
    {
        self.num_bytes
    }

    pub fn is_empty(&self) -> (empty: bool)
        ensures
            empty == (self@.records.len() == 0),
    {
        self.records.len() == 0
    }

    /// Releases the accounting of every record (the queue is being deleted).
    pub fn clear(&mut self, usage: &mut MemQueueUsage)
        requires
            old(self).well_formed(),
        ensures
            final(self).well_formed(),
            final(self)@ == old(self)@.cleared(),
            final(usage).byte_count() == counted_in(
                old(usage).byte_count(),
                -old(self)@.num_bytes(),
            ),
            final(usage).record_count() == counted_in(
                old(usage).record_count(),
                -(old(self)@.records.len() as int),
            ),
            usage_follows(*old(usage), *final(usage), old(self)@, final(self)@),
    {
        assert(self@.records.len() == self.records@.len());
        usage.count_out(self.num_bytes, self.records.len() as u64);
        self.records.clear();
        self.num_bytes = 0;
        assert(self@ =~= old(self)@.cleared());
    }

    /// Ends the life of a queue: what it still holds is released.
    pub fn release(self, usage: &mut MemQueueUsage)
        requires
            self.well_formed(),
        ensures
            final(usage).byte_count() == counted_in(old(usage).byte_count(), -self@.num_bytes()),
            final(usage).record_count() == counted_in(
                old(usage).record_count(),
                -(self@.records.len() as int),
            ),
            usage_follows(*old(usage), *final(usage), self@, self@.cleared()),
    {
        let mut queue = self;
        queue.clear(usage);
    }
}

/// Whether the positions of a list ascend, from 0 on.
pub open spec fn in_order(list: Seq<(int, Seq<u8>)>) -> bool {
    &&& forall|i: int| 0 <= i < list.len() ==> 0 <= (#[trigger] list[i]).0
    &&& forall|i: int, j: int|
        0 <= i < j < list.len() ==> (#[trigger] list[i]).0 < (#[trigger] list[j]).0
}

/// Where a range starts.
pub open spec fn range_start(start: PositionBound) -> int {
    match start {
        PositionBound::Included(position) => position as int,
        PositionBound::Excluded(position) => position + 1,
        PositionBound::Unbounded => 0,
    }
}

/// Where a range of a queue ends: the first position behind it.
pub open spec fn range_end(queue: QueueModel, end: PositionBound) -> int {
    match end {
        PositionBound::Included(position) => position + 1,
        PositionBound::Excluded(position) => position as int,
        PositionBound::Unbounded => queue.next_position,
    }
}

/// Lengths of two lists put one behind the other add up.
pub proof fn lemma_pairs_add_up(a: Seq<(int, Seq<u8>)>, b: Seq<(int, Seq<u8>)>)
    ensures
        pairs_len(a + b) == pairs_len(a) + pairs_len(b),
    decreases b.len(),
{
    if b.len() == 0 {
        assert(a + b =~= a);
    } else {
        lemma_pairs_add_up(a, b.drop_last());
        assert((a + b).drop_last() =~= a + b.drop_last());
    }
}

proof fn lemma_placed_len(first: int, list: Seq<Seq<u8>>)
    ensures
        pairs_len(placed(first, list)) == buffer::total_len(list),
    decreases list.len(),
{
    if list.len() > 0 {
        lemma_placed_len(first, list.drop_last());
        assert(placed(first, list).drop_last() =~= placed(first, list.drop_last()));
    }
}

proof fn lemma_subrange_len(list: Seq<(int, Seq<u8>)>, from: int, to: int)
    requires
        0 <= from <= to <= list.len(),
    ensures
        pairs_len(list.subrange(from, to)) <= pairs_len(list),
{
    lemma_pairs_add_up(list.take(from), list.subrange(from, to));
    lemma_pairs_add_up(list.take(to), list.skip(to));
    assert(list.take(from) + list.subrange(from, to) =~= list.take(to));
    assert(list.take(to) + list.skip(to) =~= list);
}

proof fn lemma_within_nothing(list: Seq<(int, Seq<u8>)>, start: int, end: int)
    requires
        start >= end,
    ensures
        within(list, start, end) == Seq::<(int, Seq<u8>)>::empty(),
    decreases list.len(),
{
    if list.len() > 0 {
        lemma_within_nothing(list.drop_last(), start, end);
    }
}

proof fn lemma_within_is_subrange(
    list: Seq<(int, Seq<u8>)>,
    start: int,
    end: int,
    from: int,
    to: int,
)
    requires
        0 <= from <= to <= list.len(),
        forall|i: int| 0 <= i < from ==> (#[trigger] list[i]).0 < start,
        forall|i: int| from <= i < to ==> start <= (#[trigger] list[i]).0 < end,
        forall|i: int| to <= i < list.len() ==> (#[trigger] list[i]).0 >= end,
    ensures
        within(list, start, end) == list.subrange(from, to),
    decreases list.len(),
{
    if list.len() > 0 {
        let rest = list.drop_last();
        if to < list.len() {
            lemma_within_is_subrange(rest, start, end, from, to);
            assert(rest.subrange(from, to) =~= list.subrange(from, to));
        } else if from < to {
            lemma_within_is_subrange(rest, start, end, from, to - 1);
            assert(rest.subrange(from, to - 1).push(list.last()) =~= list.subrange(from, to));
        } else {
            lemma_within_is_subrange(rest, start, end, from - 1, to - 1);
            assert(rest.subrange(from - 1, to - 1) =~= list.subrange(from, to));
        }
    }
}

/// The records of a range stand in order within it.
pub proof fn lemma_within_in_order(list: Seq<(int, Seq<u8>)>, start: int, end: int)
    requires
        in_order(list),
    ensures
        in_order(within(list, start, end)),
        forall|i: int|
            0 <= i < within(list, start, end).len() ==> start <= (#[trigger] within(
                list,
                start,
                end,
            )[i]).0 < end && within(list, start, end)[i].0 <= list.last().0,
    decreases list.len(),
{
    if list.len() > 0 {
        let rest = list.drop_last();
        lemma_within_in_order(rest, start, end);
        assert forall|i: int| 0 <= i < within(rest, start, end).len() implies (#[trigger] within(
            rest,
            start,
            end,
        )[i]).0 < list.last().0 by {
            assert(rest.len() > 0);
            assert(rest.last().0 < list.last().0);
        }
    }
}

/// A range falls into the two parts before and from a position on.
pub proof fn lemma_within_splits(list: Seq<(int, Seq<u8>)>, start: int, middle: int, end: int)
    requires
        in_order(list),
        start <= middle <= end,
    ensures
        within(list, start, end) == within(list, start, middle) + within(list, middle, end),
    decreases list.len(),
{
    if list.len() > 0 {
        let rest = list.drop_last();
        lemma_within_splits(rest, start, middle, end);
        if start <= list.last().0 < middle {
            lemma_within_in_order(rest, middle, end);
            if within(rest, middle, end).len() > 0 {
                assert(within(rest, middle, end)[0].0 <= rest.last().0);
                assert(rest.last().0 < list.last().0);
            }
        }
        assert(within(list, start, end) =~= within(list, start, middle) + within(
            list,
            middle,
            end,
        ));
    }
}

// ---- Laws ----

proof fn lemma_within_of_within(
    list: Seq<(int, Seq<u8>)>,
    outer_start: int,
    outer_end: int,
    start: int,
    end: int,
)
    requires
        outer_start <= start,
        end <= outer_end,
    ensures
        within(within(list, outer_start, outer_end), start, end) == within(list, start, end),
    decreases list.len(),
{
    if list.len() > 0 {
        let rest = list.drop_last();
        lemma_within_of_within(rest, outer_start, outer_end, start, end);
        let outer = within(list, outer_start, outer_end);
        if outer_start <= list.last().0 < outer_end {
            assert(outer.drop_last() =~= within(rest, outer_start, outer_end));
        }
    }
}

/// A record appended to a queue is found at the position that it was given.
pub proof fn appended_record_is_found(queue: QueueModel, position: int, record: Seq<u8>)
    requires
        position >= queue.next_position,
        in_order(queue.records),
        queue.records.len() > 0 ==> queue.records.last().0 < queue.next_position,
    ensures
        queue.with_record_at(position, record).between(position, position + 1) == seq![
            (position, record),
        ],
{
    let longer = queue.with_record_at(position, record);
    assert(longer.records.drop_last() =~= queue.records);
    let n = queue.records.len() as int;
    lemma_within_is_subrange(queue.records, position, position + 1, n, n);
    assert(longer.between(position, position + 1) =~= seq![(position, record)]);
}

/// Truncation keeps every record behind the position, at its position.
pub proof fn truncation_keeps_later_records(queue: QueueModel, position: int, start: int, end: int)
    requires
        position < start,
        end <= queue.next_position,
    ensures
        queue.truncated(position).between(start, end) == queue.between(start, end),
{
    lemma_within_of_within(queue.records, position + 1, queue.next_position, start, end);
}

/// Positions never go backwards: truncation moves the next position on or leaves it, and no record
/// up to the position is left.
pub proof fn truncation_moves_positions_on(queue: QueueModel, position: int)
    ensures
        queue.truncated(position).next_position >= queue.next_position,
        queue.truncated(position).next_position > position,
        queue.truncated(position).first_position() > position,
{
    lemma_within_bounds(queue.records, position + 1, queue.next_position);
}

proof fn lemma_within_bounds(list: Seq<(int, Seq<u8>)>, start: int, end: int)
    ensures
        forall|i: int|
            0 <= i < within(list, start, end).len() ==> start <= (#[trigger] within(
                list,
                start,
                end,
            )[i]).0 < end,
    decreases list.len(),
{
    if list.len() > 0 {
        let before = within(list.drop_last(), start, end);
        lemma_within_bounds(list.drop_last(), start, end);
        assert forall|i: int| 0 <= i < within(list, start, end).len() implies start <= (
        #[trigger] within(list, start, end)[i]).0 < end by {
            if i < before.len() {
                assert(within(list, start, end)[i] == before[i]);
            }
        }
    }
}

/// Truncating twice at the same position is truncating once.
pub proof fn truncation_is_idempotent(queue: QueueModel, position: int)
    ensures
        queue.truncated(position).truncated(position) == queue.truncated(position),
{
    let once = queue.truncated(position);
    if queue.next_position <= position {
        lemma_within_nothing(queue.records, position + 1, queue.next_position);
        assert(once.truncated(position) =~= once);
    } else {
        lemma_within_of_within(
            queue.records,
            position + 1,
            queue.next_position,
            position + 1,
            queue.next_position,
        );
        assert(once.truncated(position) =~= once);
    }
}

/// A record replayed at a position is refused when it is replayed again.
pub proof fn replayed_record_is_present(queue: QueueModel, position: int, record: Seq<u8>)
    requires
        position >= queue.next_position,
    ensures
        queue.with_record_at(position, record).next_position == position + 1,
{
}

/// What a queue adds to the usage it gives back: after records are appended to an empty queue and
/// the queue is cleared, both counters stand where they stood.
pub proof fn clearing_gives_back_the_usage(
    before: MemQueueUsage,
    appended: MemQueueUsage,
    cleared: MemQueueUsage,
    queue: QueueModel,
    list: Seq<Seq<u8>>,
)
    requires
        queue.records.len() == 0,
        usage_follows(before, appended, queue, queue.with_records(list)),
        usage_follows(
            appended,
            cleared,
            queue.with_records(list),
            queue.with_records(list).cleared(),
        ),
    ensures
        cleared.byte_count() == before.byte_count(),
        cleared.record_count() == before.record_count(),
{
    let full = queue.with_records(list);
    lemma_counting_twice(
        before.byte_count(),
        full.num_bytes() - queue.num_bytes(),
        queue.num_bytes() - full.num_bytes(),
    );
    lemma_counting_twice(
        before.record_count(),
        full.records.len() - queue.records.len(),
        queue.records.len() - full.records.len(),
    );
    lemma_counting_nothing(before.byte_count());
    lemma_counting_nothing(before.record_count());
}

/// The bytes and records of queues, counted together.
pub open spec fn queue_totals(queues: Seq<QueueModel>) -> (int, int)
    decreases queues.len(),
{
    if queues.len() == 0 {
        (0, 0)
    } else {
        let (bytes, records) = queue_totals(queues.drop_last());
        (bytes + queues.last().num_bytes(), records + queues.last().records.len())
    }
}

/// A usage, and the live queues that share it.
pub struct SharedUsage {
    pub usage: MemQueueUsage,
    pub queues: Seq<QueueModel>,
}

impl SharedUsage {
    /// Whether the usage is the sum over the queues. The counters wrap.
    pub open spec fn is_the_sum(self) -> bool {
        &&& self.usage.byte_count() == counted_in(0, queue_totals(self.queues).0)
        &&& self.usage.record_count() == counted_in(0, queue_totals(self.queues).1)
    }

    /// Whether one operation leads from here to `next`: an empty queue is made; records are
    /// appended to, truncated from or cleared from a queue; or a queue is released.
    pub open spec fn leads_to(self, next: SharedUsage) -> bool {
        ||| next.usage == self.usage && exists|position: int|
            next.queues == self.queues.push(#[trigger] QueueModel::fresh(position))
        ||| exists|i: int|
            0 <= i < self.queues.len() && next.queues == self.queues.update(
                i,
                #[trigger] next.queues[i],
            ) && usage_follows(self.usage, next.usage, self.queues[i], next.queues[i])
        ||| exists|i: int|
            0 <= i < self.queues.len() && next.queues == #[trigger] self.queues.remove(i)
                && usage_follows(
                self.usage,
                next.usage,
                self.queues[i],
                self.queues[i].cleared(),
            )
    }
}

/// After any number of operations on its queues, the usage is the sum over those that live.
pub proof fn usage_is_the_sum_over_queues(history: Seq<SharedUsage>)
    requires
        history.len() > 0,
        history[0].is_the_sum(),
        forall|i: int|
            0 < i < history.len() ==> (#[trigger] history[i - 1]).leads_to(history[i]),
    ensures
        history.last().is_the_sum(),
    decreases history.len(),
{
    if history.len() > 1 {
        let earlier = history.drop_last();
        assert forall|i: int| 0 < i < earlier.len() implies (#[trigger] earlier[i - 1]).leads_to(
            earlier[i],
        ) by {
            assert(history[i - 1].leads_to(history[i]));
        }
        usage_is_the_sum_over_queues(earlier);
        assert(history[history.len() - 2].leads_to(history.last()));
        lemma_sum_is_kept(history[history.len() - 2], history.last());
    }
}

/// A usage that no queue shares stands at nothing.
pub proof fn unshared_usage_is_nothing(shared: SharedUsage)
    requires
        shared.is_the_sum(),
        shared.queues.len() == 0,
    ensures
        shared.usage.byte_count() == 0,
        shared.usage.record_count() == 0,
{
}

proof fn lemma_sum_is_kept(before: SharedUsage, after: SharedUsage)
    requires
        before.is_the_sum(),
        before.leads_to(after),
    ensures
        after.is_the_sum(),
{
    let totals = queue_totals(before.queues);
    if after.usage == before.usage && exists|position: int|
        after.queues == before.queues.push(#[trigger] QueueModel::fresh(position)) {
        let position = choose|position: int|
            after.queues == before.queues.push(#[trigger] QueueModel::fresh(position));
        assert(after.queues.drop_last() =~= before.queues);
    } else if exists|i: int|
        0 <= i < before.queues.len() && after.queues == before.queues.update(
            i,
            #[trigger] after.queues[i],
        ) && usage_follows(before.usage, after.usage, before.queues[i], after.queues[i]) {
        let i = choose|i: int|
            0 <= i < before.queues.len() && after.queues == before.queues.update(
                i,
                #[trigger] after.queues[i],
            ) && usage_follows(before.usage, after.usage, before.queues[i], after.queues[i]);
        let from = before.queues[i];
        let to = after.queues[i];
        lemma_totals_of_update(before.queues, i, to);
        lemma_counting_twice(0, totals.0, to.num_bytes() - from.num_bytes());
        lemma_counting_twice(0, totals.1, to.records.len() - from.records.len());
    } else {
        let i = choose|i: int|
            0 <= i < before.queues.len() && after.queues == #[trigger] before.queues.remove(i)
                && usage_follows(
                before.usage,
                after.usage,
                before.queues[i],
                before.queues[i].cleared(),
            );
        let from = before.queues[i];
        lemma_totals_of_removal(before.queues, i);
        lemma_counting_twice(0, totals.0, -from.num_bytes());
        lemma_counting_twice(0, totals.1, -(from.records.len() as int));
    }
}

proof fn lemma_totals_of_update(queues: Seq<QueueModel>, i: int, queue: QueueModel)
    requires
        0 <= i < queues.len(),
    ensures
        queue_totals(queues.update(i, queue)).0 == queue_totals(queues).0 + queue.num_bytes()
            - queues[i].num_bytes(),
        queue_totals(queues.update(i, queue)).1 == queue_totals(queues).1 + queue.records.len()
            - queues[i].records.len(),
    decreases queues.len(),
{
    let updated = queues.update(i, queue);
    if i < queues.len() - 1 {
        lemma_totals_of_update(queues.drop_last(), i, queue);
        assert(updated.drop_last() =~= queues.drop_last().update(i, queue));
    } else {
        assert(updated.drop_last() =~= queues.drop_last());
    }
}

proof fn lemma_totals_of_removal(queues: Seq<QueueModel>, i: int)
    requires
        0 <= i < queues.len(),
    ensures
        queue_totals(queues.remove(i)).0 == queue_totals(queues).0 - queues[i].num_bytes(),
        queue_totals(queues.remove(i)).1 == queue_totals(queues).1 - queues[i].records.len(),
    decreases queues.len(),
{
    let removed = queues.remove(i);
    if i < queues.len() - 1 {
        lemma_totals_of_removal(queues.drop_last(), i);
        assert(removed.drop_last() =~= queues.drop_last().remove(i));
        assert(removed.last() == queues.last());
    } else {
        assert(removed =~= queues.drop_last());
    }
}

/// Two changes of a counter, one behind the other, are their sum.
pub proof fn lemma_counting_twice(counter: u64, first: int, second: int)
    ensures
        counted_in(counted_in(counter, first), second) == counted_in(counter, first + second),
{
    let m = 0x1_0000_0000_0000_0000int;
    vstd::arithmetic::div_mod::lemma_add_mod_noop_right(second, counter + first, m);
    assert(second + (counter + first) % m == (counter + first) % m + second);
}

/// A counter that nothing is counted into stands where it stood.
pub proof fn lemma_counting_nothing(counter: u64)
    ensures
        counted_in(counter, 0) == counter,
{
    vstd::arithmetic::div_mod::lemma_small_mod(counter as nat, 0x1_0000_0000_0000_0000nat);
}

/// A range takes the records of a list at its positions, and no others.
pub proof fn within_takes_the_records_of_a_range(
    list: Seq<(int, Seq<u8>)>,
    start: int,
    end: int,
    record: (int, Seq<u8>),
)
    ensures
        within(list, start, end).contains(record) <==> list.contains(record) && start <= record.0
            < end,
    decreases list.len(),
{
    let found = within(list, start, end);
    if list.len() == 0 {
        assert(!found.contains(record));
    } else {
        let rest = list.drop_last();
        let before = within(rest, start, end);
        within_takes_the_records_of_a_range(rest, start, end, record);
        if found.contains(record) {
            let i = choose|i: int| 0 <= i < found.len() && found[i] == record;
            if i < before.len() {
                assert(before[i] == record);
                let j = choose|j: int| 0 <= j < rest.len() && rest[j] == record;
                assert(list[j] == record);
            } else {
                assert(list[list.len() - 1] == record);
            }
        }
        if list.contains(record) && start <= record.0 < end {
            let j = choose|j: int| 0 <= j < list.len() && list[j] == record;
            if j < rest.len() {
                assert(rest[j] == record);
                let i = choose|i: int| 0 <= i < before.len() && before[i] == record;
                assert(found[i] == record);
            } else {
                assert(found[found.len() - 1] == record);
            }
        }
    }
}

/// A queue gives the records it holds at the positions of a range, and no others.
pub proof fn ranges_give_what_a_queue_holds(
    queue: QueueModel,
    start: int,
    end: int,
    record: (int, Seq<u8>),
)
    ensures
        queue.between(start, end).contains(record) <==> queue.records.contains(record) && start
            <= record.0 < end,
{
    within_takes_the_records_of_a_range(queue.records, start, end, record);
}

/// Records are appended behind those of the queue, one position after the other from the next one on,
/// and the last of them is the last that was appended.
pub proof fn appended_records_take_the_next_positions(
    queue: QueueModel,
    list: Seq<Seq<u8>>,
    i: int,
)
    requires
        0 <= i < list.len(),
        0 <= queue.next_position,
        queue.next_position + list.len() <= u64::MAX,
    ensures
        ({
            let after = queue.with_records(list);
            &&& after.records.len() == queue.records.len() + list.len()
            &&& forall|j: int|
                0 <= j < queue.records.len() ==> #[trigger] after.records[j] == queue.records[j]
            &&& after.records[queue.records.len() + i].0 == queue.next_position + i
            &&& after.records[queue.records.len() + i].1 == list[i]
            &&& after.next_position - list.len() == queue.next_position
            &&& after.last_appended matches Some(last) && last == after.next_position - 1
        }),
{
}

/// A record that is appended at a position stands there, behind those of the queue, which goes on
/// behind it.
pub proof fn replayed_records_are_the_last(queue: QueueModel, position: int, record: Seq<u8>)
    requires
        0 <= position < u64::MAX,
    ensures
        ({
            let after = queue.with_record_at(position, record);
            &&& after.records.len() == queue.records.len() + 1
            &&& forall|j: int|
                0 <= j < queue.records.len() ==> #[trigger] after.records[j] == queue.records[j]
            &&& after.records[queue.records.len() as int] == (position, record)
            &&& after.next_position - 1 == position
            &&& after.last_appended matches Some(last) && last == position
        }),
{
}

/// Truncating a queue drops its records up to a position, and no others. What was appended last is
/// still known, and the queue goes on where it would have, or behind the position.
pub proof fn truncation_drops_exactly_the_earlier_records(
    queue: QueueModel,
    position: int,
    record: (int, Seq<u8>),
)
    requires
        0 <= position,
        0 <= record.0 < queue.next_position,
    ensures
        queue.truncated(position).records.contains(record) <==> queue.records.contains(record)
            && record.0 > position,
        queue.dropped(position).contains(record) <==> queue.records.contains(record) && record.0
            <= position,
        queue.truncated(position).last_appended == queue.last_appended,
        queue.next_position > position ==> queue.truncated(position).next_position
            == queue.next_position,
        queue.next_position <= position ==> queue.truncated(position).next_position - 1 == position,
{
    within_takes_the_records_of_a_range(queue.records, position + 1, queue.next_position, record);
    within_takes_the_records_of_a_range(queue.records, 0, position + 1, record);
}

/// Clearing a queue drops its records, and nothing else that is known of it.
pub proof fn clearing_keeps_the_positions(queue: QueueModel)
    ensures
        queue.cleared().records.len() == 0,
        queue.cleared().next_position == queue.next_position,
        queue.cleared().last_appended == queue.last_appended,
{
}

/// A new queue holds nothing, and starts where it is told to.
pub proof fn new_queues_hold_nothing(next_position: int)
    ensures
        QueueModel::fresh(next_position).records.len() == 0,
        QueueModel::fresh(next_position).next_position == next_position,
        QueueModel::fresh(next_position).last_appended is None,
{
}

/// The first position of a queue is that of its first record, which no record is before, or where it
/// goes on if it holds none.
pub proof fn first_positions_are_the_lowest(queue: QueueModel, i: int)
    requires
        in_order(queue.records),
    ensures
        queue.records.len() == 0 ==> queue.first_position() == queue.next_position,
        0 <= i < queue.records.len() ==> queue.first_position() <= queue.records[i].0,
        queue.records.len() > 0 ==> exists|j: int|
            0 <= j < queue.records.len() && (#[trigger] queue.records[j]).0
                == queue.first_position(),
{
    if queue.records.len() > 0 {
        assert(queue.records[0].0 == queue.first_position());
    }
}

/// The records of a queue are in order if their positions ascend, from zero on.
pub proof fn ordered_records_have_ascending_positions(list: Seq<(int, Seq<u8>)>, i: int, j: int)
    requires
        in_order(list),
        0 <= i < j < list.len(),
    ensures
        0 <= list[i].0,
        list[i].0 < list[j].0,
{
}

/// Buffers with positions are modelled by their bytes, at their positions.
pub proof fn pairs_keep_their_positions(list: Seq<(u64, Bytes)>, i: int)
    requires
        0 <= i < list.len(),
    ensures
        pairs(list).len() == list.len(),
        pairs(list)[i].0 == list[i].0,
        pairs(list)[i].1 == buffer::bytes_content(list[i].1),
{
}

/// The bytes of a queue are those of its records: none if it holds none, and more by those of a record
/// that is added.
pub proof fn queue_bytes_are_those_of_its_records(
    queue: QueueModel,
    position: int,
    record: Seq<u8>,
)
    ensures
        queue.records.len() == 0 ==> queue.num_bytes() == 0,
        queue.with_record_at(position, record).num_bytes() == queue.num_bytes() + record.len(),
        pairs_len(Seq::empty()) == 0,
{
    let after = queue.with_record_at(position, record);
    assert(after.records.drop_last() =~= queue.records);
}

/// A capped list is the start of the whole: it holds no more than the cap in bytes, unless it is a
/// single record, and it stops only where the next record would be too much.
pub proof fn capped_lists_hold_what_fits(
    all: Seq<(int, Seq<u8>)>,
    cap: int,
    taken: Seq<(int, Seq<u8>)>,
)
    requires
        capped(all, cap, taken),
    ensures
        taken.len() <= all.len(),
        forall|i: int| 0 <= i < taken.len() ==> #[trigger] taken[i] == all[i],
        all.len() > 0 ==> taken.len() > 0,
        taken.len() > 1 ==> pairs_len(taken) <= cap,
        taken.len() < all.len() ==> pairs_len(taken) + all[taken.len() as int].1.len() > cap,
{
    let n = taken.len() as int;
    if n > 1 {
        assert(all.take(n) =~= taken);
    }
    if n < all.len() {
        assert(all.take(n + 1).drop_last() =~= taken);
        assert(all.take(n + 1).last() == all[n]);
    }
}

/// The bounds of a range: one that is included is part of it, one that is excluded is not, and a range
/// without bounds takes in all positions of the queue.
pub proof fn bounds_include_or_exclude(queue: QueueModel, bound: u64, position: int)
    requires
        0 <= position,
    ensures
        range_start(PositionBound::Included(bound)) <= position <==> bound <= position,
        range_start(PositionBound::Excluded(bound)) <= position <==> bound < position,
        range_start(PositionBound::Unbounded) <= position,
        position < range_end(queue, PositionBound::Included(bound)) <==> position <= bound,
        position < range_end(queue, PositionBound::Excluded(bound)) <==> position < bound,
        position < range_end(queue, PositionBound::Unbounded) <==> position < queue.next_position,
{
}

/// A counter moves by what is counted into it, as long as it stays within its range.
pub proof fn counters_move_by_what_is_counted(counter: u64, change: int)
    requires
        0 <= counter + change <= u64::MAX,
    ensures
        counted_in(counter, change) - counter == change,
{
    vstd::arithmetic::div_mod::lemma_small_mod(
        (counter + change) as nat,
        0x1_0000_0000_0000_0000nat,
    );
}

/// The usage moves with a queue: by the bytes and records that it gains or loses.
pub proof fn usage_moves_with_the_queue(
    before: MemQueueUsage,
    after: MemQueueUsage,
    from: QueueModel,
    to: QueueModel,
)
    requires
        usage_follows(before, after, from, to),
        0 <= before.byte_count() + to.num_bytes() - from.num_bytes() <= u64::MAX,
        0 <= before.record_count() + to.records.len() - from.records.len() <= u64::MAX,
    ensures
        after.byte_count() - before.byte_count() == to.num_bytes() - from.num_bytes(),
        after.record_count() - before.record_count() == to.records.len() - from.records.len(),
{
    counters_move_by_what_is_counted(before.byte_count(), to.num_bytes() - from.num_bytes());
    counters_move_by_what_is_counted(
        before.record_count(),
        to.records.len() - from.records.len(),
    );
}

/// The first record is always taken, whatever its size, and alone if the second does not fit with it. A
/// list that fits is taken whole.
pub proof fn first_records_are_taken_whatever_their_size(all: Seq<(int, Seq<u8>)>, cap: int)
    requires
        all.len() > 0,
    ensures
        !capped(all, cap, seq![]),
        all.len() == 1 ==> capped(all, cap, all),
        all.len() > 1 && pairs_len(all.take(2)) > cap ==> capped(all, cap, all.take(1)),
        (forall|n: int| 1 < n <= all.len() ==> pairs_len(#[trigger] all.take(n)) <= cap) ==> capped(
            all,
            cap,
            all,
        ),
{
    assert(all.take(all.len() as int) =~= all);
}

} // verus!
