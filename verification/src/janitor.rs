//! Periodic garbage collection of the ingest v3 object-store WAL.
//!
//! See [`crate::gc`] for what gets deleted and why. This module keeps the counters of the passes
//! and turns the metastore's replies into publish positions.

use vstd::prelude::*;

use crate::gc::{IngestWalGcParams, IngestWalGcReport, ShardPosition, SourceAnswer};
#[allow(unused_imports)]
use crate::gc;
use crate::text::same_text;

verus! {

/// The time between two passes, in seconds.
pub const RUN_INTERVAL_SECS: u64 = 600;

/// What the metastore replies when asked for the shards of a source.
pub enum ListShardsReply {
    /// The shards, one list per part of the reply.
    Shards(Vec<Vec<ShardPosition>>),
    /// The index or the source does not exist.
    NotFound,
    /// The request failed otherwise.
    Failed,
}

/// The last position that the first `n` entries give a shard.
pub open spec fn latest(shards: Seq<ShardPosition>, shard_id: Seq<char>, n: nat) -> Option<
    crate::position::PublishPosition,
>
    decreases n,
{
    if n == 0 {
        None
    } else if shards[n - 1].shard_id@ == shard_id {
        Some(shards[n - 1].position)
    } else {
        latest(shards, shard_id, (n - 1) as nat)
    }
}

/// The last position that the first `n` lists give a shard.
pub open spec fn latest_of_lists(
    lists: Seq<Vec<ShardPosition>>,
    shard_id: Seq<char>,
    n: nat,
) -> Option<crate::position::PublishPosition>
    decreases n,
{
    if n == 0 {
        None
    } else {
        match latest(lists[n - 1]@, shard_id, lists[n - 1]@.len()) {
            Some(position) => Some(position),
            None => latest_of_lists(lists, shard_id, (n - 1) as nat),
        }
    }
}

/// No shard is listed twice.
pub open spec fn shards_distinct(shards: Seq<ShardPosition>) -> bool {
    forall|i: int, j: int|
        #![trigger shards[i], shards[j]]
        0 <= i < j < shards.len() ==> shards[i].shard_id@ != shards[j].shard_id@
}

/// The position that a list of distinct shards gives a shard.
pub open spec fn listed_position(shards: Seq<ShardPosition>, shard_id: Seq<char>) -> Option<
    crate::position::PublishPosition,
> {
    gc::position_of(shards, shard_id, shards.len())
}

proof fn lemma_absent(shards: Seq<ShardPosition>, shard_id: Seq<char>, n: nat)
    requires
        n <= shards.len(),
        forall|i: int| 0 <= i < n ==> (#[trigger] shards[i]).shard_id@ != shard_id,
    ensures
        gc::position_of(shards, shard_id, n) is None,
    decreases n,
{
    if n > 0 {
        lemma_absent(shards, shard_id, (n - 1) as nat);
    }
}

proof fn lemma_found(shards: Seq<ShardPosition>, at: int, n: nat)
    requires
        0 <= at < n <= shards.len(),
        shards_distinct(shards),
    ensures
        gc::position_of(shards, shards[at].shard_id@, n) == Some(shards[at].position),
    decreases n,
{
    if at == n - 1 {
        lemma_absent(shards, shards[at].shard_id@, (n - 1) as nat);
    } else {
        lemma_found(shards, at, (n - 1) as nat);
    }
}

proof fn lemma_same_entries(
    left: Seq<ShardPosition>,
    right: Seq<ShardPosition>,
    shard_id: Seq<char>,
    n: nat,
)
    requires
        n <= left.len(),
        n <= right.len(),
        forall|i: int|
            #![trigger left[i]]
            #![trigger right[i]]
            0 <= i < n ==> left[i].shard_id@ == right[i].shard_id@ && (left[i].shard_id@ == shard_id
                ==> left[i].position == right[i].position),
    ensures
        gc::position_of(left, shard_id, n) == gc::position_of(right, shard_id, n),
    decreases n,
{
    if n > 0 {
        lemma_same_entries(left, right, shard_id, (n - 1) as nat);
    }
}

/// Gives a shard a position, in place of the one it had.
fn insert_position(positions: &mut Vec<ShardPosition>, shard: &ShardPosition)
    requires
        shards_distinct(old(positions)@),
    ensures
        shards_distinct(final(positions)@),
        forall|shard_id: Seq<char>|
            #[trigger] listed_position(final(positions)@, shard_id) == if shard_id
                == shard.shard_id@ {
                Some(shard.position)
            } else {
                listed_position(old(positions)@, shard_id)
            },
{
    let ghost before = positions@;
    let mut i: usize = 0;
    while i < positions.len()
        invariant
            i <= positions@.len(),
            positions@ == before,
            forall|j: int| 0 <= j < i ==> (#[trigger] before[j]).shard_id@ != shard.shard_id@,
        ensures
            i < before.len() ==> before[i as int].shard_id@ == shard.shard_id@,
        decreases positions@.len() - i,
    {
        if same_text(positions[i].shard_id.as_str(), shard.shard_id.as_str()) {
            break;
        }
        i = i + 1;
    }
    let entry = ShardPosition { shard_id: shard.shard_id.clone(), position: shard.position };
    if i < positions.len() {
        positions.set(i, entry);
        let ghost after = positions@;
        proof {
            assert(shards_distinct(after)) by {
                assert forall|a: int, b: int|
                    #![trigger after[a], after[b]]
                    0 <= a < b < after.len() implies after[a].shard_id@ != after[b].shard_id@ by {
                    assert(before[a].shard_id@ != before[b].shard_id@);
                }
            }
            lemma_found(after, i as int, after.len());
            assert forall|shard_id: Seq<char>| shard_id != shard.shard_id@ implies #[trigger] listed_position(
                after,
                shard_id,
            ) == listed_position(before, shard_id) by {
                lemma_same_entries(after, before, shard_id, after.len());
            }
        }
    } else {
        positions.push(entry);
        let ghost after = positions@;
        proof {
            lemma_found(after, after.len() - 1, after.len());
            assert forall|shard_id: Seq<char>| shard_id != shard.shard_id@ implies #[trigger] listed_position(
                after,
                shard_id,
            ) == listed_position(before, shard_id) by {
                lemma_same_entries(after, before, shard_id, before.len());
            }
        }
    }
}

/// Publish positions as recorded by the metastore: the last one where a shard is listed twice. A
/// source that is not found is gone, and nothing will ever read its records.
pub fn list_shard_positions(reply: &ListShardsReply) -> (answer: SourceAnswer)
    ensures
        match *reply {
            ListShardsReply::Shards(lists) => match answer {
                SourceAnswer::Shards(positions) => {
                    &&& shards_distinct(positions@)
                    &&& forall|shard_id: Seq<char>|
                        #[trigger] listed_position(positions@, shard_id) == latest_of_lists(
                            lists@,
                            shard_id,
                            lists@.len(),
                        )
                },
                _ => false,
            },
            ListShardsReply::NotFound => answer == SourceAnswer::Gone,
            ListShardsReply::Failed => answer == SourceAnswer::Failed,
        },
{
    match reply {
        ListShardsReply::NotFound => SourceAnswer::Gone,
        ListShardsReply::Failed => SourceAnswer::Failed,
        ListShardsReply::Shards(lists) => {
            let mut positions: Vec<ShardPosition> = Vec::new();
            let mut i: usize = 0;
            while i < lists.len()
                invariant
                    i <= lists@.len(),
                    shards_distinct(positions@),
                    forall|shard_id: Seq<char>|
                        #[trigger] listed_position(positions@, shard_id) == latest_of_lists(
                            lists@,
                            shard_id,
                            i as nat,
                        ),
                decreases lists@.len() - i,
            {
                let list = &lists[i];
                let mut j: usize = 0;
                while j < list.len()
                    invariant
                        j <= list@.len(),
                        shards_distinct(positions@),
                        forall|shard_id: Seq<char>|
                            #[trigger] listed_position(positions@, shard_id) == match latest(
                                list@,
                                shard_id,
                                j as nat,
                            ) {
                                Some(position) => Some(position),
                                None => latest_of_lists(lists@, shard_id, i as nat),
                            },
                    decreases list@.len() - j,
                {
                    insert_position(&mut positions, &list[j]);
                    j = j + 1;
                }
                i = i + 1;
            }
            SourceAnswer::Shards(positions)
        },
    }
}

/// What the passes so far have done.
#[derive(Clone, Copy, Debug, PartialEq, Eq, Structural)]
pub struct IngestWalGarbageCollectorCounters {
    pub num_passes: usize,
    pub num_failed_passes: usize,
    pub num_deleted_objects: usize,
    pub num_deleted_bytes: u64,
    pub num_failed_deletions: usize,
}

impl Default for IngestWalGarbageCollectorCounters {
    fn default() -> (counters: Self)
        ensures
            counters == (IngestWalGarbageCollectorCounters {
                num_passes: 0,
                num_failed_passes: 0,
                num_deleted_objects: 0,
                num_deleted_bytes: 0,
                num_failed_deletions: 0,
            }),
    {
        IngestWalGarbageCollectorCounters {
            num_passes: 0,
            num_failed_passes: 0,
            num_deleted_objects: 0,
            num_deleted_bytes: 0,
            num_failed_deletions: 0,
        }
    }
}

/// Counts the garbage collection passes, one every [`RUN_INTERVAL_SECS`].
pub struct IngestWalGarbageCollector {
    pub params: IngestWalGcParams,
    pub counters: IngestWalGarbageCollectorCounters,
}

impl IngestWalGarbageCollector {
    /// A collector that keeps objects younger than `min_age_nanos` and deletes for real.
    pub fn new(min_age_nanos: u128) -> (collector: Self)
        ensures
            collector.params == (IngestWalGcParams { min_age_nanos, dry_run: false }),
            collector.counters == (IngestWalGarbageCollectorCounters {
                num_passes: 0,
                num_failed_passes: 0,
                num_deleted_objects: 0,
                num_deleted_bytes: 0,
                num_failed_deletions: 0,
            }),
    {
        IngestWalGarbageCollector {
            params: IngestWalGcParams { min_age_nanos, dry_run: false },
            counters: IngestWalGarbageCollectorCounters::default(),
        }
    }

    /// Counts a pass that starts.
    pub fn start_pass(&mut self)
        requires
            old(self).counters.num_passes < usize::MAX,
        ensures
            *final(self) == (IngestWalGarbageCollector {
                counters: IngestWalGarbageCollectorCounters {
                    num_passes: (old(self).counters.num_passes + 1) as usize,
                    ..old(self).counters
                },
                ..*old(self)
            }),
    {
        self.counters.num_passes = self.counters.num_passes + 1;
    }

    /// Counts a pass that failed.
    pub fn fail_pass(&mut self)
        requires
            old(self).counters.num_failed_passes < usize::MAX,
        ensures
            *final(self) == (IngestWalGarbageCollector {
                counters: IngestWalGarbageCollectorCounters {
                    num_failed_passes: (old(self).counters.num_failed_passes + 1) as usize,
                    ..old(self).counters
                },
                ..*old(self)
            }),
    {
        self.counters.num_failed_passes = self.counters.num_failed_passes + 1;
    }

    /// Adds the report of a pass that completed, and returns the number of objects it left.
    pub fn record(&mut self, report: &IngestWalGcReport) -> (num_live_objects: usize)
        requires
            report.num_deleted_objects <= report.num_objects,
            old(self).counters.num_deleted_objects + report.num_deleted_objects <= usize::MAX,
            old(self).counters.num_deleted_bytes + report.num_deleted_bytes <= u64::MAX,
            old(self).counters.num_failed_deletions + report.num_failed_deletions <= usize::MAX,
        ensures
            num_live_objects == report.num_objects - report.num_deleted_objects,
            *final(self) == (IngestWalGarbageCollector {
                counters: IngestWalGarbageCollectorCounters {
                    num_deleted_objects: (old(self).counters.num_deleted_objects
                        + report.num_deleted_objects) as usize,
                    num_deleted_bytes: (old(self).counters.num_deleted_bytes
                        + report.num_deleted_bytes) as u64,
                    num_failed_deletions: (old(self).counters.num_failed_deletions
                        + report.num_failed_deletions) as usize,
                    ..old(self).counters
                },
                ..*old(self)
            }),
    {
        self.counters.num_deleted_objects =
        self.counters.num_deleted_objects + report.num_deleted_objects;
        self.counters.num_deleted_bytes =
        self.counters.num_deleted_bytes + report.num_deleted_bytes;
        self.counters.num_failed_deletions =
        self.counters.num_failed_deletions + report.num_failed_deletions;
        report.num_objects - report.num_deleted_objects
    }
}

/// The last entry for a shard gives its position. A shard without an entry has none.
pub proof fn last_entries_give_the_position(
    shards: Seq<ShardPosition>,
    shard_id: Seq<char>,
    n: nat,
)
    requires
        n <= shards.len(),
    ensures
        latest(shards, shard_id, n) is None <==> forall|i: int|
            0 <= i < n ==> (#[trigger] shards[i]).shard_id@ != shard_id,
        latest(shards, shard_id, n) matches Some(position) ==> exists|i: int|
            0 <= i < n && (#[trigger] shards[i]).shard_id@ == shard_id && shards[i].position
                == position && forall|j: int|
                i < j < n ==> (#[trigger] shards[j]).shard_id@ != shard_id,
    decreases n,
{
    if n > 0 {
        if shards[n - 1].shard_id@ == shard_id {
            assert(shards[n - 1].position == latest(shards, shard_id, n)->0);
        } else {
            last_entries_give_the_position(shards, shard_id, (n - 1) as nat);
        }
    }
}

/// Of several lists, the last one with an entry for a shard gives its position.
pub proof fn last_lists_give_the_position(
    lists: Seq<Vec<ShardPosition>>,
    shard_id: Seq<char>,
    n: nat,
)
    requires
        n <= lists.len(),
    ensures
        latest_of_lists(lists, shard_id, n) is None <==> forall|i: int|
            0 <= i < n ==> latest((#[trigger] lists[i])@, shard_id, lists[i]@.len()) is None,
        latest_of_lists(lists, shard_id, n) matches Some(position) ==> exists|i: int|
            0 <= i < n && latest((#[trigger] lists[i])@, shard_id, lists[i]@.len()) == Some(position)
                && forall|j: int|
                i < j < n ==> latest((#[trigger] lists[j])@, shard_id, lists[j]@.len()) is None,
    decreases n,
{
    if n > 0 {
        let last = latest(lists[n - 1]@, shard_id, lists[n - 1]@.len());
        if last is None {
            last_lists_give_the_position(lists, shard_id, (n - 1) as nat);
        } else {
            assert(latest(lists[n - 1]@, shard_id, lists[n - 1]@.len()) == latest_of_lists(
                lists,
                shard_id,
                n,
            ));
        }
    }
}

/// A list without a shard twice gives every shard the position of its own entry.
pub proof fn distinct_shards_have_their_own_position(shards: Seq<ShardPosition>, i: int)
    requires
        shards_distinct(shards),
        0 <= i < shards.len(),
    ensures
        listed_position(shards, shards[i].shard_id@) == Some(shards[i].position),
        forall|j: int|
            0 <= j < shards.len() && j != i ==> (#[trigger] shards[j]).shard_id@
                != shards[i].shard_id@,
{
    lemma_found(shards, i, shards.len());
}

} // verus!
