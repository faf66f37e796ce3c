//! The state of an ingester: its shards, what becomes of them when it starts, and how they are
//! truncated and deleted.

use vstd::prelude::*;

use crate::acks::QueuePosition;
#[allow(unused_imports)]
use crate::acks;
#[allow(unused_imports)]
use crate::buffer;
use crate::fetch::IngestV2Error;
use crate::gc::QueueKey;
#[allow(unused_imports)]
use crate::mem_queue;
use crate::mem_queue::{MemQueue, MemQueueUsage, QueueModel};
use crate::object_wal::{GcState, GcModel};
#[allow(unused_imports)]
use crate::object_wal;
use crate::pipeline::copy_texts;
use crate::position::Position;
use crate::text::same_text;
use crate::text_map::TextMap;
use crate::wal::reader::{RecordModel, WalRecord};
#[allow(unused_imports)]
use crate::wal::reader;

verus! {

/// Where an ingester stands in its life.
#[derive(Clone, Copy, Debug, PartialEq, Eq, Structural)]
pub enum IngesterStatus {
    Initializing,
    Ready,
    Decommissioning,
    Decommissioned,
    Failed,
}

/// Whether a shard takes records.
#[derive(Clone, Copy, Debug, PartialEq, Eq, Structural)]
pub enum ShardState {
    Open,
    /// Neither open nor closed: its ingester cannot be reached.
    Unavailable,
    Closed,
}

/// A shard of an ingester.
pub struct IngesterShard {
    pub key: QueueKey,
    pub state: ShardState,
    pub replication_position_inclusive: Position,
    pub truncation_position_inclusive: Position,
    pub is_advertisable: bool,
    /// The shard's records, with the object-store log.
    pub mem_queue: Option<MemQueue>,
}

impl IngesterShard {
    pub open spec fn well_formed(self) -> bool {
        self.mem_queue matches Some(queue) ==> queue.well_formed()
    }
}

/// Whether every shard of a map is well-formed.
pub open spec fn shards_well_formed(shards: TextMap<IngesterShard>) -> bool {
    shards.well_formed() && forall|queue_id: Seq<char>| #[trigger]
        shards@.contains_key(queue_id) ==> shards@[queue_id].well_formed()
}

// ---- Status ----

/// What the check of a decommissioning ingester calls for.
#[derive(Clone, Copy, Debug, PartialEq, Eq, Structural)]
pub enum DecommissioningStep {
    /// The ingester is not being decommissioned.
    Ignore,
    /// Set the status, and publish it to the cluster.
    SetDecommissioned,
    /// Notify those who observe the status, which stays.
    Notify,
}

/// Checks whether the ingester is fully decommissioned: it has no shards, or all of them are
/// non-advertisable and empty. The latter are never going to be deleted by any other cleanup
/// mechanism, so they are not waited for.
pub fn check_decommissioning_status(status: IngesterStatus, empty_orphans: &Vec<bool>) -> (step:
    DecommissioningStep)
    ensures
        step == if status != IngesterStatus::Decommissioning {
            DecommissioningStep::Ignore
        } else if forall|i: int| 0 <= i < empty_orphans@.len() ==> #[trigger] empty_orphans@[i] {
            DecommissioningStep::SetDecommissioned
        } else {
            DecommissioningStep::Notify
        },
        step == decommissioning_step(status, empty_orphans@),
{
    if status != IngesterStatus::Decommissioning {
        return DecommissioningStep::Ignore;
    }
    let mut i: usize = 0;
    while i < empty_orphans.len()
        invariant
            i <= empty_orphans@.len(),
            status == IngesterStatus::Decommissioning,
            forall|j: int| 0 <= j < i ==> #[trigger] empty_orphans@[j],
        decreases empty_orphans@.len() - i,
    {
        if !empty_orphans[i] {
            return DecommissioningStep::Notify;
        }
        i = i + 1;
    }
    DecommissioningStep::SetDecommissioned
}

/// Whether the state can be used: not before the ingester is initialized, and not if that failed.
pub fn check_locked(before: IngesterStatus, locked: IngesterStatus) -> (checked: Result<
    (),
    IngestV2Error,
>)
    ensures
        match checked {
            Ok(_) => before != IngesterStatus::Initializing && locked != IngesterStatus::Failed,
            Err(IngestV2Error::Internal(message)) => if before == IngesterStatus::Initializing {
                message@ == "ingester is initializing"@
            } else {
                locked == IngesterStatus::Failed && message@ == "failed to initialize ingester"@
            },
            Err(_) => false,
        },
        checked is Ok <==> usable(before, locked),
{
    if before == IngesterStatus::Initializing {
        return Err(IngestV2Error::Internal("ingester is initializing".to_owned()));
    }
    if locked == IngesterStatus::Failed {
        return Err(IngestV2Error::Internal("failed to initialize ingester".to_owned()));
    }
    Ok(())
}

// ---- Choosing a shard ----

/// Whether records of a source can go to a shard.
pub open spec fn takes_records(shard: IngesterShard, index_uid: Seq<char>, source_id: Seq<char>) -> bool {
    shard.state == ShardState::Open && shard.key.index_uid@ == index_uid && shard.key.source_id@
        == source_id
}

/// Returns the queue of the shard with the most available permits for this index and source. The
/// permits stand in the order of the queues.
pub fn find_most_capacity_shard(
    shards: &TextMap<IngesterShard>,
    permits: &Vec<u64>,
    index_uid: &str,
    source_id: &str,
) -> (index: Option<usize>)
    requires
        shards.well_formed(),
        permits@.len() == shards.keys().len(),
    ensures
        match index {
            Some(index) => {
                &&& index < shards.keys().len()
                &&& takes_records(shards.values()[index as int], index_uid@, source_id@)
                &&& forall|i: int|
                    0 <= i < shards.keys().len() && takes_records(
                        #[trigger] shards.values()[i],
                        index_uid@,
                        source_id@,
                    ) ==> permits@[i] <= permits@[index as int]
            },
            None => forall|i: int|
                0 <= i < shards.keys().len() ==> !takes_records(
                    #[trigger] shards.values()[i],
                    index_uid@,
                    source_id@,
                ),
        },
{
    let mut best: Option<usize> = None;
    let mut i: usize = 0;
    while i < shards.len()
        invariant
            i <= shards.keys().len(),
            shards.well_formed(),
            permits@.len() == shards.keys().len(),
            match best {
                Some(best) => {
                    &&& best < i
                    &&& takes_records(shards.values()[best as int], index_uid@, source_id@)
                    &&& forall|j: int|
                        0 <= j < i && takes_records(
                            #[trigger] shards.values()[j],
                            index_uid@,
                            source_id@,
                        ) ==> permits@[j] <= permits@[best as int]
                },
                None => forall|j: int|
                    0 <= j < i ==> !takes_records(
                        #[trigger] shards.values()[j],
                        index_uid@,
                        source_id@,
                    ),
            },
        decreases shards.keys().len() - i,
    {
        let shard = shards.value_at(i);
        if shard.state == ShardState::Open && same_text(shard.key.index_uid.as_str(), index_uid)
            && same_text(shard.key.source_id.as_str(), source_id) {
            let better = match best {
                Some(best) => permits[i] >= permits[best],
                None => true,
            };
            if better {
                best = Some(i);
            }
        }
        i = i + 1;
    }
    best
}

// ---- Snapshot ----

/// The open shards of a source, counted, and the ids of its closed ones.
struct SourceShards {
    index_uid: String,
    source_id: String,
    num_open_shards: usize,
    closed_shard_ids: Vec<String>,
}

/// What a snapshot says of a source.
pub struct SourceShardsModel {
    pub num_open_shards: nat,
    pub closed_shard_ids: Seq<Seq<char>>,
}

/// What the first `n` shards of a list say of a source: `None` while none of them is advertised.
pub open spec fn source_shards(
    shards: Seq<IngesterShard>,
    index_uid: Seq<char>,
    source_id: Seq<char>,
    n: nat,
) -> Option<SourceShardsModel>
    decreases n,
{
    if n == 0 {
        None
    } else {
        let before = source_shards(shards, index_uid, source_id, (n - 1) as nat);
        let shard = shards[n - 1];
        if shard.is_advertisable && shard.key.index_uid@ == index_uid && shard.key.source_id@
            == source_id {
            let so_far = match before {
                Some(model) => model,
                None => SourceShardsModel { num_open_shards: 0, closed_shard_ids: seq![] },
            };
            Some(
                match shard.state {
                    ShardState::Open => SourceShardsModel {
                        num_open_shards: so_far.num_open_shards + 1,
                        ..so_far
                    },
                    ShardState::Closed => SourceShardsModel {
                        closed_shard_ids: so_far.closed_shard_ids.push(shard.key.shard_id@),
                        ..so_far
                    },
                    ShardState::Unavailable => so_far,
                },
            )
        } else {
            before
        }
    }
}

/// What an entry of a snapshot says.
spec fn entry_model(entry: SourceShards) -> SourceShardsModel {
    SourceShardsModel {
        num_open_shards: entry.num_open_shards as nat,
        closed_shard_ids: crate::path::texts(entry.closed_shard_ids@),
    }
}

/// Whether a snapshot says what the first `n` shards say: one entry per source with an advertised
/// shard.
spec fn snapshot_of(entries: Seq<SourceShards>, shards: Seq<IngesterShard>, n: nat) -> bool {
    &&& forall|i: int|
        0 <= i < entries.len() ==> source_shards(
            shards,
            (#[trigger] entries[i]).index_uid@,
            entries[i].source_id@,
            n,
        ) == Some(entry_model(entries[i]))
    &&& forall|i: int, j: int|
        0 <= i < j < entries.len() ==> entries[i].index_uid@ != entries[j].index_uid@
            || entries[i].source_id@ != entries[j].source_id@
    &&& forall|index_uid: Seq<char>, source_id: Seq<char>| #[trigger]
        source_shards(shards, index_uid, source_id, n) is Some ==> exists|i: int|
            0 <= i < entries.len() && (#[trigger] entries[i]).index_uid@ == index_uid
                && entries[i].source_id@ == source_id
}

fn find_entry(entries: &Vec<SourceShards>, key: &QueueKey) -> (index: Option<usize>)
    ensures
        match index {
            Some(index) => index < entries@.len() && entries@[index as int].index_uid@
                == key.index_uid@ && entries@[index as int].source_id@ == key.source_id@,
            None => forall|i: int|
                0 <= i < entries@.len() ==> (#[trigger] entries@[i]).index_uid@ != key.index_uid@
                    || entries@[i].source_id@ != key.source_id@,
        },
{
    let mut i: usize = 0;
    while i < entries.len()
        invariant
            i <= entries@.len(),
            forall|j: int|
                0 <= j < i ==> (#[trigger] entries@[j]).index_uid@ != key.index_uid@
                    || entries@[j].source_id@ != key.source_id@,
        decreases entries@.len() - i,
    {
        if same_text(entries[i].index_uid.as_str(), key.index_uid.as_str()) && same_text(
            entries[i].source_id.as_str(),
            key.source_id.as_str(),
        ) {
            return Some(i);
        }
        i = i + 1;
    }
    None
}

fn count_shard(entry: &mut SourceShards, shard: &IngesterShard)
    requires
        old(entry).num_open_shards < usize::MAX,
    ensures
        final(entry).index_uid == old(entry).index_uid,
        final(entry).source_id == old(entry).source_id,
        final(entry).num_open_shards <= old(entry).num_open_shards + 1,
        entry_model(*final(entry)) == match shard.state {
            ShardState::Open => SourceShardsModel {
                num_open_shards: entry_model(*old(entry)).num_open_shards + 1,
                ..entry_model(*old(entry))
            },
            ShardState::Closed => SourceShardsModel {
                closed_shard_ids: entry_model(*old(entry)).closed_shard_ids.push(
                    shard.key.shard_id@,
                ),
                ..entry_model(*old(entry))
            },
            ShardState::Unavailable => entry_model(*old(entry)),
        },
{
    match shard.state {
        ShardState::Open => {
            entry.num_open_shards = entry.num_open_shards + 1;
        },
        ShardState::Closed => {
            let ghost before = crate::path::texts(entry.closed_shard_ids@);
            entry.closed_shard_ids.push(shard.key.shard_id.clone());
            assert(crate::path::texts(entry.closed_shard_ids@) =~= before.push(
                shard.key.shard_id@,
            ));
        },
        ShardState::Unavailable => {},
    }
}

fn count_shards(shards: &TextMap<IngesterShard>) -> (entries: Vec<SourceShards>)
    requires
        shards.well_formed(),
    ensures
        snapshot_of(entries@, shards.values(), shards.values().len()),
{
    let ghost all = shards.values();
    let mut entries: Vec<SourceShards> = Vec::new();
    let mut i: usize = 0;
    while i < shards.len()
        invariant
            i <= shards.keys().len(),
            shards.well_formed(),
            all == shards.values(),
            snapshot_of(entries@, all, i as nat),
            forall|j: int| 0 <= j < entries@.len() ==> (#[trigger] entries@[j]).num_open_shards <= i,
        decreases shards.keys().len() - i,
    {
        let shard = shards.value_at(i);
        let ghost before = entries@;
        if shard.is_advertisable {
            match find_entry(&entries, &shard.key) {
                Some(index) => {
                    count_shard(&mut entries[index], shard);
                    proof {
                        lemma_snapshot_grows(before, entries@, all, i as nat, index as int);
                    }
                },
                None => {
                    let mut entry = SourceShards {
                        index_uid: shard.key.index_uid.clone(),
                        source_id: shard.key.source_id.clone(),
                        num_open_shards: 0,
                        closed_shard_ids: Vec::new(),
                    };
                    assert(crate::path::texts(entry.closed_shard_ids@) =~= seq![]);
                    count_shard(&mut entry, shard);
                    entries.push(entry);
                    proof {
                        lemma_snapshot_gains(before, entries@, all, i as nat);
                    }
                },
            }
        } else {
            proof {
                assert forall|index_uid: Seq<char>, source_id: Seq<char>| #[trigger]
                    source_shards(all, index_uid, source_id, (i + 1) as nat) == source_shards(
                        all,
                        index_uid,
                        source_id,
                        i as nat,
                    ) by {}
            }
        }
        i = i + 1;
    }
    entries
}

/// Ids of shards of a source.
#[derive(Debug, PartialEq, Eq)]
pub struct ShardIds {
    pub index_uid: String,
    pub source_id: String,
    pub shard_ids: Vec<String>,
}

/// Whether a list counts the open shards of every source with an advertised shard, once each.
pub open spec fn counts_open_shards(
    list: Seq<(String, String, usize)>,
    shards: Seq<IngesterShard>,
) -> bool {
    &&& forall|i: int|
        0 <= i < list.len() ==> (source_shards(
            shards,
            (#[trigger] list[i]).0@,
            list[i].1@,
            shards.len(),
        ) matches Some(source) && source.num_open_shards == list[i].2)
    &&& forall|i: int, j: int|
        0 <= i < j < list.len() ==> list[i].0@ != list[j].0@ || list[i].1@ != list[j].1@
    &&& forall|index_uid: Seq<char>, source_id: Seq<char>| #[trigger]
        source_shards(shards, index_uid, source_id, shards.len()) is Some ==> exists|i: int|
            0 <= i < list.len() && (#[trigger] list[i]).0@ == index_uid && list[i].1@ == source_id
}

/// Whether a list names the closed shards of every source that has advertised ones, once each.
pub open spec fn names_closed_shards(list: Seq<ShardIds>, shards: Seq<IngesterShard>) -> bool {
    &&& forall|i: int|
        0 <= i < list.len() ==> (source_shards(
            shards,
            (#[trigger] list[i]).index_uid@,
            list[i].source_id@,
            shards.len(),
        ) matches Some(source) && source.closed_shard_ids == crate::path::texts(
            list[i].shard_ids@,
        ) && source.closed_shard_ids.len() > 0)
    &&& forall|i: int, j: int|
        0 <= i < j < list.len() ==> list[i].index_uid@ != list[j].index_uid@ || list[i].source_id@
            != list[j].source_id@
    &&& forall|index_uid: Seq<char>, source_id: Seq<char>|
        (#[trigger] source_shards(shards, index_uid, source_id, shards.len()) matches Some(source)
            && source.closed_shard_ids.len() > 0) ==> exists|i: int|
            0 <= i < list.len() && (#[trigger] list[i]).index_uid@ == index_uid
                && list[i].source_id@ == source_id
}

/// Returns per-source open shard counts and closed shard ids for all advertisable shards. Sources
/// without closed shards are not among the latter.
pub fn get_shard_snapshot(shards: &TextMap<IngesterShard>) -> (snapshot: (
    Vec<(String, String, usize)>,
    Vec<ShardIds>,
))
    requires
        shards.well_formed(),
    ensures
        counts_open_shards(snapshot.0@, shards.values()),
        names_closed_shards(snapshot.1@, shards.values()),
{
    let ghost all = shards.values();
    let entries = count_shards(shards);
    let mut open_counts: Vec<(String, String, usize)> = Vec::new();
    let mut closed_shards: Vec<ShardIds> = Vec::new();
    let ghost mut from: Seq<int> = seq![];
    let mut i: usize = 0;
    while i < entries.len()
        invariant
            i <= entries@.len(),
            open_counts@.len() == i,
            forall|j: int|
                0 <= j < i ==> (#[trigger] open_counts@[j]).0@ == entries@[j].index_uid@
                    && open_counts@[j].1@ == entries@[j].source_id@ && open_counts@[j].2
                    == entries@[j].num_open_shards,
            from.len() == closed_shards@.len(),
            forall|j: int|
                0 <= j < from.len() ==> 0 <= #[trigger] from[j] < i
                    && closed_shards@[j].index_uid@ == entries@[from[j]].index_uid@
                    && closed_shards@[j].source_id@ == entries@[from[j]].source_id@
                    && crate::path::texts(closed_shards@[j].shard_ids@) == crate::path::texts(
                    entries@[from[j]].closed_shard_ids@,
                ) && entries@[from[j]].closed_shard_ids@.len() > 0,
            forall|j: int, k: int| 0 <= j < k < from.len() ==> from[j] < from[k],
            forall|j: int|
                0 <= j < i && entries@[j].closed_shard_ids@.len() > 0 ==> #[trigger] from.contains(
                    j,
                ),
        decreases entries@.len() - i,
    {
        let entry = &entries[i];
        open_counts.push(
            (entry.index_uid.clone(), entry.source_id.clone(), entry.num_open_shards),
        );
        if entry.closed_shard_ids.len() > 0 {
            closed_shards.push(
                ShardIds {
                    index_uid: entry.index_uid.clone(),
                    source_id: entry.source_id.clone(),
                    shard_ids: copy_texts(&entry.closed_shard_ids),
                },
            );
            proof {
                let before = from;
                from = from.push(i as int);
                assert forall|j: int|
                    0 <= j < i + 1 && entries@[j].closed_shard_ids@.len() > 0 implies #[trigger] from.contains(
                    j,
                ) by {
                    if j < i {
                        assert(before.contains(j));
                        let k = choose|k: int| 0 <= k < before.len() && before[k] == j;
                        assert(from[k] == j);
                    } else {
                        assert(from.last() == j);
                    }
                }
            }
        }
        i = i + 1;
    }
    proof {
        lemma_closed_shards(entries@, closed_shards@, from, all);
        assert forall|index_uid: Seq<char>, source_id: Seq<char>| #[trigger]
            source_shards(all, index_uid, source_id, all.len()) is Some implies exists|j: int|
            0 <= j < open_counts@.len() && (#[trigger] open_counts@[j]).0@ == index_uid
                && open_counts@[j].1@ == source_id by {
            let j = choose|j: int|
                0 <= j < entries@.len() && (#[trigger] entries@[j]).index_uid@ == index_uid
                    && entries@[j].source_id@ == source_id;
            assert(open_counts@[j].0@ == index_uid);
        }
        assert forall|j: int, k: int| 0 <= j < k < open_counts@.len() implies open_counts@[j].0@
            != open_counts@[k].0@ || open_counts@[j].1@ != open_counts@[k].1@ by {
            assert(entries@[j].index_uid@ != entries@[k].index_uid@ || entries@[j].source_id@
                != entries@[k].source_id@);
        }
    }
    (open_counts, closed_shards)
}

proof fn lemma_closed_shards(
    entries: Seq<SourceShards>,
    closed: Seq<ShardIds>,
    from: Seq<int>,
    shards: Seq<IngesterShard>,
)
    requires
        snapshot_of(entries, shards, shards.len()),
        from.len() == closed.len(),
        forall|j: int|
            0 <= j < from.len() ==> 0 <= #[trigger] from[j] < entries.len() && closed[j].index_uid@
                == entries[from[j]].index_uid@ && closed[j].source_id@
                == entries[from[j]].source_id@ && crate::path::texts(closed[j].shard_ids@)
                == crate::path::texts(entries[from[j]].closed_shard_ids@)
                && entries[from[j]].closed_shard_ids@.len() > 0,
        forall|j: int, k: int| 0 <= j < k < from.len() ==> from[j] < from[k],
        forall|j: int|
            0 <= j < entries.len() && entries[j].closed_shard_ids@.len() > 0 ==> #[trigger] from.contains(
                j,
            ),
    ensures
        names_closed_shards(closed, shards),
{
    assert forall|i: int| 0 <= i < closed.len() implies (source_shards(
        shards,
        (#[trigger] closed[i]).index_uid@,
        closed[i].source_id@,
        shards.len(),
    ) matches Some(source) && source.closed_shard_ids == crate::path::texts(closed[i].shard_ids@)
        && source.closed_shard_ids.len() > 0) by {
        let entry = entries[from[i]];
        assert(source_shards(shards, entry.index_uid@, entry.source_id@, shards.len()) == Some(
            entry_model(entry),
        ));
    }
    assert forall|i: int, j: int| 0 <= i < j < closed.len() implies closed[i].index_uid@
        != closed[j].index_uid@ || closed[i].source_id@ != closed[j].source_id@ by {
        let a = from[i];
        let b = from[j];
        assert(a < b);
        assert(entries[a].index_uid@ != entries[b].index_uid@ || entries[a].source_id@
            != entries[b].source_id@);
    }
    assert forall|index_uid: Seq<char>, source_id: Seq<char>|
        (#[trigger] source_shards(shards, index_uid, source_id, shards.len()) matches Some(source)
            && source.closed_shard_ids.len() > 0) implies exists|i: int|
        0 <= i < closed.len() && (#[trigger] closed[i]).index_uid@ == index_uid
            && closed[i].source_id@ == source_id by {
        let j = choose|j: int|
            0 <= j < entries.len() && (#[trigger] entries[j]).index_uid@ == index_uid
                && entries[j].source_id@ == source_id;
        assert(source_shards(shards, entries[j].index_uid@, entries[j].source_id@, shards.len())
            == Some(entry_model(entries[j])));
        assert(from.contains(j));
        let i = choose|i: int| 0 <= i < from.len() && from[i] == j;
        assert(closed[i].index_uid@ == index_uid);
    }
}

proof fn lemma_snapshot_grows(
    before: Seq<SourceShards>,
    after: Seq<SourceShards>,
    shards: Seq<IngesterShard>,
    n: nat,
    index: int,
)
    requires
        n < shards.len(),
        snapshot_of(before, shards, n),
        0 <= index < before.len(),
        shards[n as int].is_advertisable,
        before[index].index_uid@ == shards[n as int].key.index_uid@,
        before[index].source_id@ == shards[n as int].key.source_id@,
        after.len() == before.len(),
        forall|i: int| 0 <= i < before.len() && i != index ==> after[i] == before[i],
        after[index].index_uid == before[index].index_uid,
        after[index].source_id == before[index].source_id,
        entry_model(after[index]) == match shards[n as int].state {
            ShardState::Open => SourceShardsModel {
                num_open_shards: entry_model(before[index]).num_open_shards + 1,
                ..entry_model(before[index])
            },
            ShardState::Closed => SourceShardsModel {
                closed_shard_ids: entry_model(before[index]).closed_shard_ids.push(
                    shards[n as int].key.shard_id@,
                ),
                ..entry_model(before[index])
            },
            ShardState::Unavailable => entry_model(before[index]),
        },
    ensures
        snapshot_of(after, shards, n + 1),
{
    assert forall|i: int| 0 <= i < after.len() implies source_shards(
        shards,
        (#[trigger] after[i]).index_uid@,
        after[i].source_id@,
        n + 1,
    ) == Some(entry_model(after[i])) by {
        assert(source_shards(shards, before[i].index_uid@, before[i].source_id@, n) == Some(
            entry_model(before[i]),
        ));
        if i < index {
            assert(before[i].index_uid@ != before[index].index_uid@ || before[i].source_id@
                != before[index].source_id@);
        } else if i > index {
            assert(before[index].index_uid@ != before[i].index_uid@ || before[index].source_id@
                != before[i].source_id@);
        }
    }
    assert forall|i: int, j: int| 0 <= i < j < after.len() implies after[i].index_uid@
        != after[j].index_uid@ || after[i].source_id@ != after[j].source_id@ by {
        assert(before[i].index_uid@ != before[j].index_uid@ || before[i].source_id@
            != before[j].source_id@);
    }
    assert forall|index_uid: Seq<char>, source_id: Seq<char>| #[trigger]
        source_shards(shards, index_uid, source_id, n + 1) is Some implies exists|i: int|
        0 <= i < after.len() && (#[trigger] after[i]).index_uid@ == index_uid && after[i].source_id@
            == source_id by {
        if source_shards(shards, index_uid, source_id, n) is Some {
            let i = choose|i: int|
                0 <= i < before.len() && (#[trigger] before[i]).index_uid@ == index_uid
                    && before[i].source_id@ == source_id;
            assert(after[i].index_uid@ == index_uid);
        } else {
            assert(after[index].index_uid@ == index_uid);
        }
    }
}

proof fn lemma_snapshot_gains(
    before: Seq<SourceShards>,
    after: Seq<SourceShards>,
    shards: Seq<IngesterShard>,
    n: nat,
)
    requires
        n < shards.len(),
        snapshot_of(before, shards, n),
        shards[n as int].is_advertisable,
        forall|i: int|
            0 <= i < before.len() ==> (#[trigger] before[i]).index_uid@
                != shards[n as int].key.index_uid@ || before[i].source_id@
                != shards[n as int].key.source_id@,
        after.len() == before.len() + 1,
        forall|i: int| 0 <= i < before.len() ==> after[i] == before[i],
        after.last().index_uid@ == shards[n as int].key.index_uid@,
        after.last().source_id@ == shards[n as int].key.source_id@,
        ({
            let none = SourceShardsModel { num_open_shards: 0, closed_shard_ids: seq![] };
            entry_model(after.last()) == match shards[n as int].state {
                ShardState::Open => SourceShardsModel { num_open_shards: 1, ..none },
                ShardState::Closed => SourceShardsModel {
                    closed_shard_ids: none.closed_shard_ids.push(shards[n as int].key.shard_id@),
                    ..none
                },
                ShardState::Unavailable => none,
            }
        }),
    ensures
        snapshot_of(after, shards, n + 1),
{
    let key = shards[n as int].key;
    assert(source_shards(shards, key.index_uid@, key.source_id@, n) is None) by {
        if source_shards(shards, key.index_uid@, key.source_id@, n) is Some {
            let i = choose|i: int|
                0 <= i < before.len() && (#[trigger] before[i]).index_uid@ == key.index_uid@
                    && before[i].source_id@ == key.source_id@;
            assert(before[i].index_uid@ == key.index_uid@);
        }
    }
    assert forall|i: int| 0 <= i < after.len() implies source_shards(
        shards,
        (#[trigger] after[i]).index_uid@,
        after[i].source_id@,
        n + 1,
    ) == Some(entry_model(after[i])) by {
        if i < before.len() {
            assert(source_shards(shards, before[i].index_uid@, before[i].source_id@, n) == Some(
                entry_model(before[i]),
            ));
        }
    }
    assert forall|i: int, j: int| 0 <= i < j < after.len() implies after[i].index_uid@
        != after[j].index_uid@ || after[i].source_id@ != after[j].source_id@ by {
        assert(before[i].index_uid@ != key.index_uid@ || before[i].source_id@ != key.source_id@);
        if j < before.len() {
            assert(before[i].index_uid@ != before[j].index_uid@ || before[i].source_id@
                != before[j].source_id@);
        }
    }
    assert forall|index_uid: Seq<char>, source_id: Seq<char>| #[trigger]
        source_shards(shards, index_uid, source_id, n + 1) is Some implies exists|i: int|
        0 <= i < after.len() && (#[trigger] after[i]).index_uid@ == index_uid && after[i].source_id@
            == source_id by {
        if source_shards(shards, index_uid, source_id, n) is Some {
            let i = choose|i: int|
                0 <= i < before.len() && (#[trigger] before[i]).index_uid@ == index_uid
                    && before[i].source_id@ == source_id;
            assert(after[i].index_uid@ == index_uid);
        } else {
            assert(after[before.len() as int].index_uid@ == index_uid);
        }
    }
}

// ---- Replay ----

/// The queues, by name.
pub type QueueModels = Map<Seq<char>, QueueModel>;

/// What a map of queues holds.
pub open spec fn queue_models(queues: TextMap<MemQueue>) -> QueueModels {
    queues@.map_values(|queue: MemQueue| queue@)
}

/// Whether every queue of a map is well-formed.
pub open spec fn queues_well_formed(queues: TextMap<MemQueue>) -> bool {
    queues.well_formed() && forall|queue_id: Seq<char>| #[trigger]
        queues@.contains_key(queue_id) ==> queues@[queue_id].well_formed()
}

/// A queue that never held a record.
pub open spec fn fresh_queue() -> QueueModel {
    QueueModel::fresh(0)
}

/// The queues with an empty one added, unless there is one of that name.
pub open spec fn with_queue(queues: QueueModels, queue_id: Seq<char>) -> QueueModels {
    if queues.contains_key(queue_id) {
        queues
    } else {
        queues.insert(queue_id, fresh_queue())
    }
}

/// The queues with a record put at its position, unless its queue is past that position.
pub open spec fn with_replayed(queues: QueueModels, record: RecordModel) -> QueueModels {
    let all = with_queue(queues, record.queue_id);
    let queue = all[record.queue_id];
    if accepted(queues, record) {
        all.insert(record.queue_id, queue.with_record_at(record.position, record.record))
    } else {
        all
    }
}

/// The queues with the first `n` names added.
pub open spec fn with_queues(queues: QueueModels, names: Seq<Seq<char>>, n: nat) -> QueueModels
    decreases n,
{
    if n == 0 {
        queues
    } else {
        with_queue(with_queues(queues, names, (n - 1) as nat), names[n - 1])
    }
}

/// The queues with the first `n` records replayed.
pub open spec fn with_all_replayed(queues: QueueModels, records: Seq<RecordModel>, n: nat) -> QueueModels
    decreases n,
{
    if n == 0 {
        queues
    } else {
        with_replayed(with_all_replayed(queues, records, (n - 1) as nat), records[n - 1])
    }
}

/// Whether a record is put into its queue: the queue is not past its position.
pub open spec fn accepted(queues: QueueModels, record: RecordModel) -> bool {
    record.position >= with_queue(queues, record.queue_id)[record.queue_id].next_position
}

/// The bytes and the number of those of the first `n` records that are put into their queues.
pub open spec fn accepted_totals(queues: QueueModels, records: Seq<RecordModel>, n: nat) -> (int, int)
    decreases n,
{
    if n == 0 {
        (0, 0)
    } else {
        let (bytes, count) = accepted_totals(queues, records, (n - 1) as nat);
        if accepted(with_all_replayed(queues, records, (n - 1) as nat), records[n - 1]) {
            (bytes + records[n - 1].record.len(), count + 1)
        } else {
            (bytes, count)
        }
    }
}

/// The bytes of the first `n` records, counted together.
pub open spec fn replayed_bytes(records: Seq<RecordModel>, n: nat) -> nat
    decreases n,
{
    if n == 0 {
        0
    } else {
        replayed_bytes(records, (n - 1) as nat) + records[n - 1].record.len()
    }
}

/// Whether no queue holds more than `bound` bytes.
pub open spec fn queues_bounded(queues: QueueModels, bound: nat) -> bool {
    forall|queue_id: Seq<char>| #[trigger]
        queues.contains_key(queue_id) ==> queues[queue_id].num_bytes() <= bound
}

fn take_queue(queues: &mut TextMap<MemQueue>, queue_id: &str) -> (queue: MemQueue)
    requires
        queues_well_formed(*old(queues)),
    ensures
        queues_well_formed(*final(queues)),
        queue.well_formed(),
        queue@ == with_queue(queue_models(*old(queues)), queue_id@)[queue_id@],
        queue_models(*final(queues)) == queue_models(*old(queues)).remove(queue_id@),
{
    let taken = queues.remove(queue_id);
    assert(queue_models(*queues) =~= queue_models(*old(queues)).remove(queue_id@));
    match taken {
        Some(queue) => queue,
        None => MemQueue::new(0),
    }
}

fn put_queue(queues: &mut TextMap<MemQueue>, queue_id: &str, queue: MemQueue)
    requires
        queues_well_formed(*old(queues)),
        queue.well_formed(),
    ensures
        queues_well_formed(*final(queues)),
        queue_models(*final(queues)) == queue_models(*old(queues)).insert(queue_id@, queue@),
{
    queues.insert(queue_id, queue);
    assert(queue_models(*queues) =~= queue_models(*old(queues)).insert(queue_id@, queue@));
}

/// Builds the in-memory queues of the shards recovered from the object-store log: one per queue
/// name, holding the replayed records at the positions they were written at. The records that are
/// put into queues are counted into the usage.
pub fn replay_object_wal_into_mem_queues(
    usage: &mut MemQueueUsage,
    queue_ids: &Vec<String>,
    records: Vec<WalRecord>,
) -> (queues: TextMap<MemQueue>)
    requires
        forall|i: int| 0 <= i < records@.len() ==> (#[trigger] records@[i]).position < u64::MAX,
        replayed_bytes(reader::record_models(records@), records@.len()) <= u64::MAX,
    ensures
        queues_well_formed(queues),
        queue_models(queues) == with_all_replayed(
            with_queues(Map::empty(), crate::path::texts(queue_ids@), queue_ids@.len()),
            reader::record_models(records@),
            records@.len(),
        ),
        ({
            let (bytes, count) = accepted_totals(
                with_queues(Map::empty(), crate::path::texts(queue_ids@), queue_ids@.len()),
                reader::record_models(records@),
                records@.len(),
            );
            &&& final(usage).byte_count() == mem_queue::counted_in(old(usage).byte_count(), bytes)
            &&& final(usage).record_count() == mem_queue::counted_in(
                old(usage).record_count(),
                count,
            )
        }),
{
    let ghost names = crate::path::texts(queue_ids@);
    let ghost models = reader::record_models(records@);
    let mut queues: TextMap<MemQueue> = TextMap::new();
    assert(queue_models(queues) =~= Map::<Seq<char>, QueueModel>::empty());
    let mut i: usize = 0;
    while i < queue_ids.len()
        invariant
            i <= queue_ids@.len(),
            names == crate::path::texts(queue_ids@),
            queues_well_formed(queues),
            queue_models(queues) == with_queues(Map::empty(), names, i as nat),
            queues_bounded(queue_models(queues), 0),
        decreases queue_ids@.len() - i,
    {
        let name = queue_ids[i].as_str();
        assert(names[i as int] == name@);
        let ghost before = queue_models(queues);
        if !queues.contains(name) {
            put_queue(&mut queues, name, MemQueue::new(0));
            assert(queue_models(queues) == with_queue(before, name@));
        }
        i = i + 1;
    }
    let ghost start = queue_models(queues);
    proof {
        mem_queue::lemma_counting_nothing(usage.byte_count());
        mem_queue::lemma_counting_nothing(usage.record_count());
    }
    let mut i: usize = 0;
    while i < records.len()
        invariant
            i <= records@.len(),
            usage.byte_count() == mem_queue::counted_in(
                old(usage).byte_count(),
                accepted_totals(start, models, i as nat).0,
            ),
            usage.record_count() == mem_queue::counted_in(
                old(usage).record_count(),
                accepted_totals(start, models, i as nat).1,
            ),
            models == reader::record_models(records@),
            forall|j: int| 0 <= j < records@.len() ==> (#[trigger] records@[j]).position < u64::MAX,
            replayed_bytes(models, records@.len()) <= u64::MAX,
            queues_well_formed(queues),
            queue_models(queues) == with_all_replayed(start, models, i as nat),
            queues_bounded(queue_models(queues), replayed_bytes(models, i as nat)),
        decreases records@.len() - i,
    {
        let record = &records[i];
        let ghost model = models[i as int];
        let ghost before = queue_models(queues);
        proof {
            lemma_replayed_bytes_grow(models, (i + 1) as nat, records@.len());
        }
        let name = record.queue_id.as_str();
        let mut queue = take_queue(&mut queues, name);
        let ghost old_queue = queue@;
        assert(old_queue.num_bytes() <= replayed_bytes(models, i as nat)) by {
            if before.contains_key(name@) {
                assert(old_queue == before[name@]);
            } else {
                assert(old_queue == fresh_queue());
            }
        }
        queue.append_at(usage, record.position, record.record.clone());
        let ghost new_queue = queue@;
        put_queue(&mut queues, name, queue);
        proof {
            assert(queue_models(queues) =~= with_replayed(before, model));
            let (bytes, count) = accepted_totals(start, models, i as nat);
            if accepted(before, model) {
                assert(new_queue.records.drop_last() =~= old_queue.records);
                mem_queue::lemma_counting_twice(
                    old(usage).byte_count(),
                    bytes,
                    model.record.len() as int,
                );
                mem_queue::lemma_counting_twice(old(usage).record_count(), count, 1);
            }
            assert forall|queue_id: Seq<char>| #[trigger]
                queue_models(queues).contains_key(queue_id) implies queue_models(
                queues,
            )[queue_id].num_bytes() <= replayed_bytes(models, (i + 1) as nat) by {
                if queue_id != name@ {
                    assert(before.contains_key(queue_id));
                }
            }
        }
        i = i + 1;
    }
    queues
}

proof fn lemma_replayed_bytes_grow(records: Seq<RecordModel>, i: nat, n: nat)
    requires
        i <= n,
    ensures
        replayed_bytes(records, i) <= replayed_bytes(records, n),
    decreases n - i,
{
    if i < n {
        lemma_replayed_bytes_grow(records, i, (n - 1) as nat);
    }
}

// ---- Recovery ----

/// What happens to what a local log keeps on disk.
#[derive(Clone, Copy, Debug, PartialEq, Eq, Structural)]
pub enum PersistPolicy {
    /// The log is a serving buffer only.
    DoNothing,
    /// The log is flushed with this delay, in seconds.
    FlushOnDelay { interval_secs: u64 },
}

/// The queues that are recovered in memory: those that the object-store log names, and those that
/// the local log held before it was discarded. A queue without a marker in the object-store log is
/// thus recovered empty and closed rather than forgotten while it is still routed to.
pub fn queues_to_recover(from_log: Vec<String>, local: &Vec<String>) -> (names: Vec<String>)
    ensures
        crate::path::texts(names@) == crate::path::texts(from_log@) + crate::path::texts(local@),
{
    let mut names = from_log;
    let mut i: usize = 0;
    assert(crate::path::texts(names@) =~= crate::path::texts(from_log@) + crate::path::texts(
        local@,
    ).take(0));
    while i < local.len()
        invariant
            i <= local@.len(),
            crate::path::texts(names@) == crate::path::texts(from_log@) + crate::path::texts(
                local@,
            ).take(i as int),
        decreases local@.len() - i,
    {
        let ghost before = crate::path::texts(names@);
        names.push(local[i].clone());
        assert(crate::path::texts(names@) =~= before.push(local@[i as int]@));
        assert(crate::path::texts(names@) =~= crate::path::texts(from_log@) + crate::path::texts(
            local@,
        ).take(i + 1));
        i = i + 1;
    }
    assert(crate::path::texts(local@).take(i as int) =~= crate::path::texts(local@));
    names
}

/// How the local log is opened. With the object-store log, that one is the only source of durability
/// and of recovery: the records of the local log are discarded, and [`queues_to_recover`] keeps the
/// names of its queues.
pub fn persist_policy(has_object_wal: bool) -> (policy: PersistPolicy)
    ensures
        policy == if has_object_wal {
            PersistPolicy::DoNothing
        } else {
            PersistPolicy::FlushOnDelay { interval_secs: 5 }
        },
        policy is DoNothing <==> has_object_wal,
{
    if has_object_wal {
        PersistPolicy::DoNothing
    } else {
        PersistPolicy::FlushOnDelay { interval_secs: 5 }
    }
}

/// The status of an ingester after its local log was cleared, where it has to be, and opened.
pub fn status_after_init(has_object_wal: bool, cleared: bool, opened: bool) -> (status: IngesterStatus)
    ensures
        status == if (has_object_wal && !cleared) || !opened {
            IngesterStatus::Failed
        } else {
            IngesterStatus::Ready
        },
        status == initialized_status(has_object_wal, cleared, opened),
{
    if has_object_wal && !cleared {
        return IngesterStatus::Failed;
    }
    if opened {
        IngesterStatus::Ready
    } else {
        IngesterStatus::Failed
    }
}

/// A queue of the local log, with the shard that its name tells, if it tells one.
pub struct LocalQueue {
    pub queue_id: String,
    pub key: Option<QueueKey>,
    /// Position of the first record.
    pub start: u64,
    /// Position of the last record, if there is any.
    pub end: Option<u64>,
}

/// A queue recovered from the object-store log, with the shard that its name tells, if it tells one.
pub struct RecoveredQueue {
    pub queue_id: String,
    pub key: Option<QueueKey>,
    pub mem_queue: MemQueue,
}

/// The position of the last record, or the beginning if there is none.
pub open spec fn up_to(last: Option<u64>) -> Position {
    match last {
        Some(offset) => Position::Offset(offset),
        None => Position::Beginning,
    }
}

/// A shard recovered from the local log: closed, advertised, with the positions of its queue. Empty
/// queues are recovered too: an indexer reaches their end at once, which gets them deleted
/// everywhere.
pub open spec fn is_recovered_local(shard: IngesterShard, queue: LocalQueue) -> bool {
    &&& Some(shard.key) == queue.key
    &&& shard.state == ShardState::Closed
    &&& shard.is_advertisable
    &&& shard.mem_queue is None
    &&& shard.replication_position_inclusive == up_to(queue.end)
    &&& shard.truncation_position_inclusive == Position::before(queue.start)
}

/// A shard recovered from the object-store log: closed, advertised, with the positions of its queue.
pub open spec fn is_recovered_mem(shard: IngesterShard, key: QueueKey, queue: QueueModel) -> bool {
    &&& shard.key == key
    &&& shard.state == ShardState::Closed
    &&& shard.is_advertisable
    &&& shard.mem_queue matches Some(mem_queue) && mem_queue@ == queue
    &&& shard.replication_position_inclusive == up_to(queue.last_appended)
    &&& shard.truncation_position_inclusive == Position::before(queue.first_position() as u64)
}

/// Recovers a shard from the local log. A queue whose name tells no shard is passed over.
pub fn recover_local_shard(shards: &mut TextMap<IngesterShard>, queue: LocalQueue) -> (recovered:
    bool)
    requires
        shards_well_formed(*old(shards)),
    ensures
        shards_well_formed(*final(shards)),
        recovered == (queue.key is Some),
        !recovered ==> *final(shards) == *old(shards),
        recovered ==> final(shards)@.contains_key(queue.queue_id@) && is_recovered_local(
            final(shards)@[queue.queue_id@],
            queue,
        ) && final(shards)@ == old(shards)@.insert(
            queue.queue_id@,
            final(shards)@[queue.queue_id@],
        ),
{
    match queue.key {
        None => false,
        Some(key) => {
            let replication_position_inclusive = match queue.end {
                Some(offset) => Position::Offset(offset),
                None => Position::Beginning,
            };
            let shard = IngesterShard {
                key,
                state: ShardState::Closed,
                replication_position_inclusive,
                truncation_position_inclusive: Position::before_offset(queue.start),
                is_advertisable: true,
                mem_queue: None,
            };
            shards.insert(queue.queue_id.as_str(), shard);
            true
        },
    }
}

/// Whether the names of queues differ from one another.
pub open spec fn distinct_queues(queue_ids: Seq<Seq<char>>) -> bool {
    forall|i: int, j: int|
        0 <= i < j < queue_ids.len() ==> #[trigger] queue_ids[i] != #[trigger] queue_ids[j]
}

/// The names of queues of the local log.
pub open spec fn local_names(queues: Seq<LocalQueue>) -> Seq<Seq<char>> {
    Seq::new(queues.len(), |i: int| queues[i].queue_id@)
}

/// The names of queues recovered from the object-store log.
pub open spec fn recovered_names(queues: Seq<RecoveredQueue>) -> Seq<Seq<char>> {
    Seq::new(queues.len(), |i: int| queues[i].queue_id@)
}

/// Whether every queue of the local log whose name tells a shard, from the `from`th on, has become a
/// closed, advertised shard, and nothing else has changed.
pub open spec fn all_recovered_local(
    before: Map<Seq<char>, IngesterShard>,
    after: Map<Seq<char>, IngesterShard>,
    queues: Seq<LocalQueue>,
    from: int,
) -> bool {
    &&& forall|i: int|
        from <= i < queues.len() && (#[trigger] queues[i]).key is Some ==> after.contains_key(
            queues[i].queue_id@,
        ) && is_recovered_local(after[queues[i].queue_id@], queues[i])
    &&& forall|queue_id: Seq<char>|
        (forall|i: int|
            from <= i < queues.len() && (#[trigger] queues[i]).key is Some
                ==> queues[i].queue_id@ != queue_id) ==> #[trigger] after.contains_key(queue_id)
            == before.contains_key(queue_id) && (after.contains_key(queue_id) ==> after[queue_id]
            == before[queue_id])
}

/// Recovers the shards of the local log, and returns how many there are: every queue whose name
/// tells a shard becomes a closed, advertised shard, and no other does.
pub fn recover_local_shards(shards: &mut TextMap<IngesterShard>, queues: Vec<LocalQueue>) -> (num_shards:
    usize)
    requires
        shards_well_formed(*old(shards)),
        distinct_queues(local_names(queues@)),
    ensures
        shards_well_formed(*final(shards)),
        all_recovered_local(old(shards)@, final(shards)@, queues@, 0),
        num_shards == local_shards_from(queues@, 0),
{
    let ghost all = queues@;
    let ghost names = local_names(all);
    let num_queues: usize = queues.len();
    let mut queues = queues;
    let mut num_shards: usize = 0;
    while queues.len() > 0
        invariant
            queues@ == all.take(queues@.len() as int),
            queues@.len() <= all.len(),
            all.len() == num_queues,
            names == local_names(all),
            distinct_queues(names),
            shards_well_formed(*shards),
            all_recovered_local(old(shards)@, shards@, all, queues@.len() as int),
            num_shards == local_shards_from(all, queues@.len()),
            num_shards <= all.len() - queues@.len(),
        decreases queues@.len(),
    {
        let ghost n = queues@.len() - 1;
        let ghost before = shards@;
        match queues.pop() {
            Some(queue) => {
                assert(queue == all[n]);
                assert(names[n] == queue.queue_id@);
                assert(queues@ =~= all.take(n));
                if recover_local_shard(shards, queue) {
                    num_shards = num_shards + 1;
                }
                proof {
                    lemma_one_more_recovered_local(old(shards)@, before, shards@, all, n);
                }
            },
            None => {},
        }
    }
    num_shards
}

/// How many queues from the `from`th on tell a shard.
pub open spec fn local_shards_from(queues: Seq<LocalQueue>, from: nat) -> nat
    decreases queues.len() - from,
{
    if from >= queues.len() {
        0
    } else {
        local_shards_from(queues, from + 1) + if queues[from as int].key is Some {
            1nat
        } else {
            0nat
        }
    }
}

proof fn lemma_one_more_recovered_local(
    start: Map<Seq<char>, IngesterShard>,
    before: Map<Seq<char>, IngesterShard>,
    after: Map<Seq<char>, IngesterShard>,
    queues: Seq<LocalQueue>,
    n: int,
)
    requires
        0 <= n < queues.len(),
        distinct_queues(local_names(queues)),
        all_recovered_local(start, before, queues, n + 1),
        queues[n].key is None ==> after == before,
        queues[n].key is Some ==> after.contains_key(queues[n].queue_id@) && is_recovered_local(
            after[queues[n].queue_id@],
            queues[n],
        ) && after == before.insert(queues[n].queue_id@, after[queues[n].queue_id@]),
    ensures
        all_recovered_local(start, after, queues, n),
{
    let names = local_names(queues);
    assert forall|i: int|
        n <= i < queues.len() && (#[trigger] queues[i]).key is Some implies after.contains_key(
        queues[i].queue_id@,
    ) && is_recovered_local(after[queues[i].queue_id@], queues[i]) by {
        if i > n {
            assert(names[n] != names[i]);
        }
    }
    assert forall|queue_id: Seq<char>|
        (forall|i: int|
            n <= i < queues.len() && (#[trigger] queues[i]).key is Some ==> queues[i].queue_id@
                != queue_id) implies #[trigger] after.contains_key(queue_id) == start.contains_key(
        queue_id,
    ) && (after.contains_key(queue_id) ==> after[queue_id] == start[queue_id]) by {
        if queues[n].key is Some {
            assert(queues[n].queue_id@ != queue_id);
        }
        assert(before.contains_key(queue_id) == start.contains_key(queue_id));
    }
}

/// The queue that goes when one is recovered: the recovered one itself if its name tells no shard,
/// otherwise that of the shard whose place it takes.
pub open spec fn queue_released(
    shards: Map<Seq<char>, IngesterShard>,
    queue: RecoveredQueue,
) -> Option<QueueModel> {
    if queue.key is None {
        Some(queue.mem_queue@)
    } else if shards.contains_key(queue.queue_id@) {
        match shards[queue.queue_id@].mem_queue {
            Some(mem_queue) => Some(mem_queue@),
            None => None,
        }
    } else {
        None
    }
}

/// Recovers a shard from the object-store log. A queue whose name tells no shard is passed over. What
/// a queue that goes still holds is released.
pub fn recover_mem_shard(
    shards: &mut TextMap<IngesterShard>,
    usage: &mut MemQueueUsage,
    queue: RecoveredQueue,
) -> (recovered: bool)
    requires
        shards_well_formed(*old(shards)),
        queue.mem_queue.well_formed(),
    ensures
        shards_well_formed(*final(shards)),
        recovered == (queue.key is Some),
        !recovered ==> *final(shards) == *old(shards),
        recovered ==> final(shards)@.contains_key(queue.queue_id@) && is_recovered_mem(
            final(shards)@[queue.queue_id@],
            queue.key->0,
            queue.mem_queue@,
        ) && final(shards)@ == old(shards)@.insert(
            queue.queue_id@,
            final(shards)@[queue.queue_id@],
        ),
        match queue_released(old(shards)@, queue) {
            Some(released) => {
                &&& final(usage).byte_count() == mem_queue::counted_in(
                    old(usage).byte_count(),
                    -released.num_bytes(),
                )
                &&& final(usage).record_count() == mem_queue::counted_in(
                    old(usage).record_count(),
                    -(released.records.len() as int),
                )
            },
            None => *final(usage) == *old(usage),
        },
{
    match queue.key {
        None => {
            queue.mem_queue.release(usage);
            false
        },
        Some(key) => {
            let replaced = shards.remove(queue.queue_id.as_str());
            match replaced {
                Some(shard) => match shard.mem_queue {
                    Some(mem_queue) => {
                        mem_queue.release(usage);
                    },
                    None => {},
                },
                None => {},
            }
            proof {
                queue.mem_queue.well_formed_bounds();
            }
            let replication_position_inclusive = match queue.mem_queue.last_position() {
                Some(offset) => Position::Offset(offset),
                None => Position::Beginning,
            };
            let truncation_position_inclusive = Position::before_offset(
                queue.mem_queue.first_position(),
            );
            let shard = IngesterShard {
                key,
                state: ShardState::Closed,
                replication_position_inclusive,
                truncation_position_inclusive,
                is_advertisable: true,
                mem_queue: Some(queue.mem_queue),
            };
            let ghost after = shard;
            shards.insert(queue.queue_id.as_str(), shard);
            assert(shards@ =~= old(shards)@.insert(queue.queue_id@, after));
            true
        },
    }
}

// ---- Acknowledged positions ----

/// How many queues from the `from`th on tell a shard.
pub open spec fn recovered_shards_from(queues: Seq<RecoveredQueue>, from: nat) -> nat
    decreases queues.len() - from,
{
    if from >= queues.len() {
        0
    } else {
        recovered_shards_from(queues, from + 1) + if queues[from as int].key is Some {
            1nat
        } else {
            0nat
        }
    }
}

/// The bytes and records that are released when queues are recovered, those from the `from`th on.
pub open spec fn released_from(
    shards: Map<Seq<char>, IngesterShard>,
    queues: Seq<RecoveredQueue>,
    from: nat,
) -> (int, int)
    decreases queues.len() - from,
{
    if from >= queues.len() {
        (0, 0)
    } else {
        let (bytes, count) = released_from(shards, queues, from + 1);
        match queue_released(shards, queues[from as int]) {
            Some(released) => (bytes + released.num_bytes(), count + released.records.len()),
            None => (bytes, count),
        }
    }
}

/// Whether every queue whose name tells a shard, from the `from`th on, has become a closed,
/// advertised shard, and nothing else has changed.
pub open spec fn all_recovered_mem(
    before: Map<Seq<char>, IngesterShard>,
    after: Map<Seq<char>, IngesterShard>,
    queues: Seq<RecoveredQueue>,
    from: int,
) -> bool {
    &&& forall|i: int|
        from <= i < queues.len() && (#[trigger] queues[i]).key is Some ==> after.contains_key(
            queues[i].queue_id@,
        ) && is_recovered_mem(
            after[queues[i].queue_id@],
            queues[i].key->0,
            queues[i].mem_queue@,
        )
    &&& forall|queue_id: Seq<char>|
        (forall|i: int|
            from <= i < queues.len() && (#[trigger] queues[i]).key is Some
                ==> queues[i].queue_id@ != queue_id) ==> #[trigger] after.contains_key(queue_id)
            == before.contains_key(queue_id) && (after.contains_key(queue_id) ==> after[queue_id]
            == before[queue_id])
}

/// Recovers the shards of the object-store log, and returns how many there are: every queue whose
/// name tells a shard becomes a closed, advertised shard, and no other does.
pub fn recover_mem_shards(
    shards: &mut TextMap<IngesterShard>,
    usage: &mut MemQueueUsage,
    queues: Vec<RecoveredQueue>,
) -> (num_shards: usize)
    requires
        shards_well_formed(*old(shards)),
        distinct_queues(recovered_names(queues@)),
        forall|i: int| 0 <= i < queues@.len() ==> (#[trigger] queues@[i]).mem_queue.well_formed(),
    ensures
        shards_well_formed(*final(shards)),
        all_recovered_mem(old(shards)@, final(shards)@, queues@, 0),
        num_shards == recovered_shards_from(queues@, 0),
        ({
            let (bytes, count) = released_from(old(shards)@, queues@, 0);
            &&& final(usage).byte_count() == mem_queue::counted_in(old(usage).byte_count(), -bytes)
            &&& final(usage).record_count() == mem_queue::counted_in(
                old(usage).record_count(),
                -count,
            )
        }),
{
    let ghost all = queues@;
    let ghost names = recovered_names(all);
    let ghost bytes_before = usage.byte_count();
    let ghost records_before = usage.record_count();
    proof {
        mem_queue::lemma_counting_nothing(bytes_before);
        mem_queue::lemma_counting_nothing(records_before);
    }
    let num_queues: usize = queues.len();
    let mut queues = queues;
    let mut num_shards: usize = 0;
    while queues.len() > 0
        invariant
            queues@ == all.take(queues@.len() as int),
            queues@.len() <= all.len(),
            all.len() == num_queues,
            names == recovered_names(all),
            distinct_queues(names),
            forall|i: int| 0 <= i < all.len() ==> (#[trigger] all[i]).mem_queue.well_formed(),
            shards_well_formed(*shards),
            all_recovered_mem(old(shards)@, shards@, all, queues@.len() as int),
            num_shards == recovered_shards_from(all, queues@.len()),
            num_shards <= all.len() - queues@.len(),
            usage.byte_count() == mem_queue::counted_in(
                bytes_before,
                -released_from(old(shards)@, all, queues@.len()).0,
            ),
            usage.record_count() == mem_queue::counted_in(
                records_before,
                -released_from(old(shards)@, all, queues@.len()).1,
            ),
        decreases queues@.len(),
    {
        let ghost n = queues@.len() - 1;
        let ghost before = shards@;
        match queues.pop() {
            Some(queue) => {
                assert(queue == all[n]);
                assert(names[n] == queue.queue_id@);
                assert(queues@ =~= all.take(n));
                proof {
                    assert forall|i: int|
                        n + 1 <= i < all.len() && (
                        #[trigger] all[i]).key is Some implies all[i].queue_id@
                        != queue.queue_id@ by {
                        assert(names[n] != names[i]);
                    }
                    assert(before.contains_key(queue.queue_id@) == old(shards)@.contains_key(
                        queue.queue_id@,
                    ));
                    assert(queue_released(before, queue) == queue_released(old(shards)@, queue));
                    let (bytes, count) = released_from(old(shards)@, all, (n + 1) as nat);
                    if let Some(released) = queue_released(before, queue) {
                        mem_queue::lemma_counting_twice(
                            bytes_before,
                            -bytes,
                            -released.num_bytes(),
                        );
                        mem_queue::lemma_counting_twice(
                            records_before,
                            -count,
                            -(released.records.len() as int),
                        );
                        assert(-bytes + -released.num_bytes() == -(bytes + released.num_bytes()));
                    }
                }
                if recover_mem_shard(shards, usage, queue) {
                    num_shards = num_shards + 1;
                }
                proof {
                    lemma_one_more_recovered_mem(old(shards)@, before, shards@, all, n);
                }
            },
            None => {},
        }
    }
    num_shards
}

proof fn lemma_one_more_recovered_mem(
    start: Map<Seq<char>, IngesterShard>,
    before: Map<Seq<char>, IngesterShard>,
    after: Map<Seq<char>, IngesterShard>,
    queues: Seq<RecoveredQueue>,
    n: int,
)
    requires
        0 <= n < queues.len(),
        distinct_queues(recovered_names(queues)),
        all_recovered_mem(start, before, queues, n + 1),
        queues[n].key is None ==> after == before,
        queues[n].key is Some ==> after.contains_key(queues[n].queue_id@) && is_recovered_mem(
            after[queues[n].queue_id@],
            queues[n].key->0,
            queues[n].mem_queue@,
        ) && after == before.insert(queues[n].queue_id@, after[queues[n].queue_id@]),
    ensures
        all_recovered_mem(start, after, queues, n),
{
    let names = recovered_names(queues);
    assert forall|i: int|
        n <= i < queues.len() && (#[trigger] queues[i]).key is Some implies after.contains_key(
        queues[i].queue_id@,
    ) && is_recovered_mem(
        after[queues[i].queue_id@],
        queues[i].key->0,
        queues[i].mem_queue@,
    ) by {
        if i > n {
            assert(names[n] != names[i]);
        }
    }
    assert forall|queue_id: Seq<char>|
        (forall|i: int|
            n <= i < queues.len() && (#[trigger] queues[i]).key is Some ==> queues[i].queue_id@
                != queue_id) implies #[trigger] after.contains_key(queue_id) == start.contains_key(
        queue_id,
    ) && (after.contains_key(queue_id) ==> after[queue_id] == start[queue_id]) by {
        if queues[n].key is Some {
            assert(queues[n].queue_id@ != queue_id);
        }
        assert(before.contains_key(queue_id) == start.contains_key(queue_id));
    }
}

/// Whether a queue of the local log, or of the object-store log, tells a shard of a name.
pub open spec fn tells_shard(
    local: Seq<LocalQueue>,
    recovered: Seq<RecoveredQueue>,
    queue_id: Seq<char>,
) -> bool {
    ||| exists|i: int|
        0 <= i < local.len() && (#[trigger] local[i]).key is Some && local[i].queue_id@ == queue_id
    ||| exists|i: int|
        0 <= i < recovered.len() && (#[trigger] recovered[i]).key is Some
            && recovered[i].queue_id@ == queue_id
}

/// An ingester starts with exactly the shards that the queues of its logs tell, and all of them are
/// closed and advertised.
pub proof fn recovery_finds_every_shard_and_no_other(
    started: Map<Seq<char>, IngesterShard>,
    after: Map<Seq<char>, IngesterShard>,
    local: Seq<LocalQueue>,
    recovered: Seq<RecoveredQueue>,
)
    requires
        all_recovered_local(Map::empty(), started, local, 0),
        all_recovered_mem(started, after, recovered, 0),
    ensures
        forall|queue_id: Seq<char>| #[trigger]
            after.contains_key(queue_id) == tells_shard(local, recovered, queue_id),
        forall|queue_id: Seq<char>| #[trigger]
            after.contains_key(queue_id) ==> after[queue_id].state == ShardState::Closed
                && after[queue_id].is_advertisable,
{
    assert forall|queue_id: Seq<char>|
        (#[trigger] after.contains_key(queue_id) == tells_shard(local, recovered, queue_id)) && (
        after.contains_key(queue_id) ==> after[queue_id].state == ShardState::Closed
            && after[queue_id].is_advertisable) by {
        let is_local = exists|i: int|
            0 <= i < local.len() && (#[trigger] local[i]).key is Some && local[i].queue_id@
                == queue_id;
        let is_recovered = exists|i: int|
            0 <= i < recovered.len() && (#[trigger] recovered[i]).key is Some
                && recovered[i].queue_id@ == queue_id;
        if !is_local {
            assert(started.contains_key(queue_id) == Map::<
                Seq<char>,
                IngesterShard,
            >::empty().contains_key(queue_id));
        }
        if !is_recovered {
            assert(after.contains_key(queue_id) == started.contains_key(queue_id));
        }
    }
}

/// Shards with the replication position of one of them, if it is known, moved.
pub open spec fn with_replicated(
    shards: Map<Seq<char>, IngesterShard>,
    queue_id: Seq<char>,
    position: Position,
) -> Map<Seq<char>, IngesterShard> {
    if shards.contains_key(queue_id) {
        shards.insert(
            queue_id,
            IngesterShard { replication_position_inclusive: position, ..shards[queue_id] },
        )
    } else {
        shards
    }
}

/// Shards with the first `n` of a list of positions applied, one behind the other.
pub open spec fn with_positions(
    shards: Map<Seq<char>, IngesterShard>,
    positions: Seq<(Seq<char>, Position)>,
    n: nat,
) -> Map<Seq<char>, IngesterShard>
    decreases n,
{
    if n == 0 {
        shards
    } else {
        with_replicated(
            with_positions(shards, positions, (n - 1) as nat),
            positions[n - 1].0,
            positions[n - 1].1,
        )
    }
}

/// Advances the replication positions of shards whose records have become durable. Shards that are
/// gone are passed over.
pub fn apply_positions(shards: &mut TextMap<IngesterShard>, positions: &Vec<QueuePosition>)
    requires
        shards_well_formed(*old(shards)),
    ensures
        shards_well_formed(*final(shards)),
        final(shards)@ == with_positions(
            old(shards)@,
            acks::queue_positions(positions@),
            positions@.len(),
        ),
{
    let ghost list = acks::queue_positions(positions@);
    let mut i: usize = 0;
    while i < positions.len()
        invariant
            i <= positions@.len(),
            list == acks::queue_positions(positions@),
            shards_well_formed(*shards),
            shards@ == with_positions(old(shards)@, list, i as nat),
        decreases positions@.len() - i,
    {
        let ghost before = shards@;
        let queue_id = positions[i].queue_id.as_str();
        match shards.remove(queue_id) {
            Some(shard) => {
                let mut shard = shard;
                shard.replication_position_inclusive = positions[i].position;
                let ghost after = shard;
                shards.insert(queue_id, shard);
                assert(shards@ =~= before.insert(queue_id@, after));
            },
            None => {
                assert(shards@ =~= before);
            },
        }
        i = i + 1;
    }
}

// ---- Deleting and truncating shards ----

/// How the deletion of a queue of the local log ended.
#[derive(Clone, Copy, Debug, PartialEq, Eq, Structural)]
pub enum DeleteQueueOutcome {
    Deleted,
    MissingQueue,
    IoError,
}

/// Releases the records that a shard holds in memory, as the first step of its deletion.
pub fn clear_shard(shards: &mut TextMap<IngesterShard>, usage: &mut MemQueueUsage, queue_id: &str)
    requires
        shards_well_formed(*old(shards)),
    ensures
        shards_well_formed(*final(shards)),
        !old(shards)@.contains_key(queue_id@) || old(shards)@[queue_id@].mem_queue is None
            ==> final(shards)@ == old(shards)@ && *final(usage) == *old(usage),
        old(shards)@.contains_key(queue_id@) && old(shards)@[queue_id@].mem_queue is Some ==> ({
            let before = old(shards)@[queue_id@];
            let after = final(shards)@[queue_id@];
            let queue = before.mem_queue->0@;
            &&& final(shards)@.contains_key(queue_id@)
            &&& final(shards)@ == old(shards)@.insert(queue_id@, after)
            &&& after == (IngesterShard { mem_queue: after.mem_queue, ..before })
            &&& after.mem_queue is Some
            &&& after.mem_queue->0@ == queue.cleared()
            &&& final(usage).byte_count() == mem_queue::counted_in(
                old(usage).byte_count(),
                -queue.num_bytes(),
            )
            &&& final(usage).record_count() == mem_queue::counted_in(
                old(usage).record_count(),
                -(queue.records.len() as int),
            )
        }),
{
    let taken = shards.remove(queue_id);
    match taken {
        None => {
            assert(shards@ =~= old(shards)@);
        },
        Some(shard) => {
            let mut shard = shard;
            match shard.mem_queue {
                None => {
                    shard.mem_queue = None;
                },
                Some(queue) => {
                    let mut queue = queue;
                    queue.clear(usage);
                    shard.mem_queue = Some(queue);
                },
            }
            let ghost after = shard;
            shards.insert(queue_id, shard);
            assert(shards@ =~= old(shards)@.insert(queue_id@, after));
            assert(old(shards)@[queue_id@].mem_queue is None ==> shards@ =~= old(shards)@);
        },
    }
}

/// Takes a shard out once its queue was deleted. A queue that could not be deleted keeps its shard;
/// a queue that was missing does not. The object-store log learns that nothing of the queue is
/// needed any more.
pub fn delete_shard(
    shards: &mut TextMap<IngesterShard>,
    object_wal: &mut Option<GcState>,
    queue_id: &str,
    outcome: DeleteQueueOutcome,
) -> (deleted: Option<IngesterShard>)
    requires
        shards_well_formed(*old(shards)),
        *old(object_wal) matches Some(gc) ==> gc.well_formed(),
    ensures
        shards_well_formed(*final(shards)),
        *final(object_wal) matches Some(gc) ==> gc.well_formed(),
        (*final(object_wal) is Some) == (*old(object_wal) is Some),
        match outcome {
            DeleteQueueOutcome::IoError => deleted is None && *final(shards) == *old(shards)
                && *final(object_wal) == *old(object_wal),
            _ => {
                &&& final(shards)@ == old(shards)@.remove(queue_id@)
                &&& match deleted {
                    Some(shard) => old(shards)@.contains_key(queue_id@) && shard == old(
                        shards,
                    )@[queue_id@],
                    None => !old(shards)@.contains_key(queue_id@),
                }
                &&& *old(object_wal) matches Some(gc) ==> (*final(object_wal))->0@ == (GcModel {
                    truncated: gc@.truncated.remove(queue_id@),
                    deleted: gc@.deleted.insert(queue_id@),
                    ..gc@
                })
            },
        },
{
    match outcome {
        DeleteQueueOutcome::IoError => None,
        _ => {
            match object_wal.take() {
                Some(gc) => {
                    let mut gc = gc;
                    gc.on_delete_queue(queue_id);
                    *object_wal = Some(gc);
                },
                None => {},
            }
            shards.remove(queue_id)
        },
    }
}

/// Takes the document mapper of a deleted shard out of the cache, once no other shard holds it.
pub fn evict_doc_mapper<D>(
    doc_mappers: &mut TextMap<D>,
    doc_mapping_uid: &str,
    num_holders: usize,
) -> (evicted: Option<D>)
    requires
        old(doc_mappers).well_formed(),
    ensures
        final(doc_mappers).well_formed(),
        num_holders != 1 ==> evicted is None && *final(doc_mappers) == *old(doc_mappers),
        num_holders == 1 ==> final(doc_mappers)@ == old(doc_mappers)@.remove(doc_mapping_uid@)
            && match evicted {
            Some(doc_mapper) => old(doc_mappers)@.contains_key(doc_mapping_uid@) && doc_mapper
                == old(doc_mappers)@[doc_mapping_uid@],
            None => !old(doc_mappers)@.contains_key(doc_mapping_uid@),
        },
{
    if num_holders == 1 {
        doc_mappers.remove(doc_mapping_uid)
    } else {
        None
    }
}

/// What truncating a shard calls for.
#[derive(Clone, Copy, Debug, PartialEq, Eq, Structural)]
pub enum TruncateStep {
    /// There is no such shard, or it is truncated that far already.
    Ignore,
    /// Truncate the queue of the local log at this offset, then go on with [`finish_truncate`].
    TruncateLog(u64),
    /// Go on with [`finish_truncate`].
    Finish,
}

/// Starts truncating a shard, only if its current truncation position is smaller. A shard that
/// holds its records in memory drops them at once.
pub fn truncate_shard(
    shards: &mut TextMap<IngesterShard>,
    usage: &mut MemQueueUsage,
    queue_id: &str,
    position: Position,
) -> (step: TruncateStep)
    requires
        shards_well_formed(*old(shards)),
        position.next_offset() <= u64::MAX,
    ensures
        shards_well_formed(*final(shards)),
        step == truncate_step(
            if old(shards)@.contains_key(queue_id@) {
                Some(old(shards)@[queue_id@])
            } else {
                None
            },
            position,
        ),
        ({
            let known = old(shards)@.contains_key(queue_id@);
            let before = old(shards)@[queue_id@];
            if !known || before.truncation_position_inclusive.reaches(position) {
                step == TruncateStep::Ignore && final(shards)@ == old(shards)@ && *final(usage)
                    == *old(usage)
            } else if position.offset() is None {
                step == TruncateStep::Finish && final(shards)@ == old(shards)@ && *final(usage)
                    == *old(usage)
            } else if before.mem_queue is None {
                step == TruncateStep::TruncateLog(position.offset()->0) && final(shards)@ == old(
                    shards,
                )@ && *final(usage) == *old(usage)
            } else {
                let after = final(shards)@[queue_id@];
                &&& step == TruncateStep::Finish
                &&& final(shards)@.contains_key(queue_id@)
                &&& final(shards)@ == old(shards)@.insert(queue_id@, after)
                &&& after == (IngesterShard { mem_queue: after.mem_queue, ..before })
                &&& after.mem_queue is Some
                &&& after.mem_queue->0@ == before.mem_queue->0@.truncated(
                    position.offset()->0 as int,
                )
                &&& final(usage).byte_count() == mem_queue::counted_in(
                    old(usage).byte_count(),
                    -mem_queue::pairs_len(
                        before.mem_queue->0@.dropped(position.offset()->0 as int),
                    ),
                )
                &&& final(usage).record_count() == mem_queue::counted_in(
                    old(usage).record_count(),
                    -(before.mem_queue->0@.dropped(position.offset()->0 as int).len() as int),
                )
            }
        }),
{
    match shards.get(queue_id) {
        None => {
            return TruncateStep::Ignore;
        },
        Some(shard) => {
            if shard.truncation_position_inclusive.is_at_least(&position) {
                return TruncateStep::Ignore;
            }
            match position.as_u64() {
                None => {
                    return TruncateStep::Finish;
                },
                Some(offset) => {
                    if shard.mem_queue.is_none() {
                        return TruncateStep::TruncateLog(offset);
                    }
                },
            }
        },
    }
    let taken = shards.remove(queue_id);
    match (taken, position.as_u64()) {
        (Some(shard), Some(offset)) => {
            let mut shard = shard;
            match shard.mem_queue {
                Some(queue) => {
                    let mut queue = queue;
                    queue.truncate(usage, offset);
                    shard.mem_queue = Some(queue);
                },
                None => {
                    shard.mem_queue = None;
                },
            }
            let ghost after = shard;
            shards.insert(queue_id, shard);
            assert(shards@ =~= old(shards)@.insert(queue_id@, after));
            TruncateStep::Finish
        },
        _ => TruncateStep::Ignore,
    }
}

/// How the truncation of a queue of the local log ended.
#[derive(Clone, Copy, Debug, PartialEq, Eq, Structural)]
pub enum TruncateOutcome {
    Truncated,
    MissingQueue,
    IoError,
}

/// Completes the truncation of a shard: its truncation position moves on, and the object-store log
/// learns which records are no longer needed. A shard whose queue is missing is dangling and is taken
/// out; one whose queue could not be truncated stays as it is.
pub fn finish_truncate(
    shards: &mut TextMap<IngesterShard>,
    object_wal: &mut Option<GcState>,
    queue_id: &str,
    position: Position,
    outcome: TruncateOutcome,
) -> (dangling: Option<IngesterShard>)
    requires
        shards_well_formed(*old(shards)),
        *old(object_wal) matches Some(gc) ==> gc.well_formed(),
        old(shards)@.contains_key(queue_id@),
    ensures
        shards_well_formed(*final(shards)),
        *final(object_wal) matches Some(gc) ==> gc.well_formed(),
        (*final(object_wal) is Some) == (*old(object_wal) is Some),
        dangling == if outcome == TruncateOutcome::MissingQueue {
            Some(old(shards)@[queue_id@])
        } else {
            None
        },
        match outcome {
            TruncateOutcome::IoError => *final(shards) == *old(shards) && *final(object_wal) == *old(
                object_wal,
            ),
            TruncateOutcome::MissingQueue => final(shards)@ == old(shards)@.remove(queue_id@)
                && *final(object_wal) == *old(object_wal),
            TruncateOutcome::Truncated => {
                &&& final(shards)@ == old(shards)@.insert(
                    queue_id@,
                    IngesterShard {
                        truncation_position_inclusive: position,
                        ..old(shards)@[queue_id@]
                    },
                )
                &&& *old(object_wal) matches Some(gc) ==> (*final(object_wal))->0@ == match position.offset() {
                    Some(offset) => GcModel {
                        truncated: gc@.truncated.insert(
                            queue_id@,
                            if gc@.truncated.contains_key(queue_id@) {
                                object_wal::later_of(gc@.truncated[queue_id@], offset)
                            } else {
                                offset
                            },
                        ),
                        ..gc@
                    },
                    None => gc@,
                }
            },
        },
{
    match outcome {
        TruncateOutcome::IoError => None,
        TruncateOutcome::MissingQueue => shards.remove(queue_id),
        TruncateOutcome::Truncated => {
            match shards.remove(queue_id) {
                Some(shard) => {
                    let mut shard = shard;
                    shard.truncation_position_inclusive = position;
                    let ghost after = shard;
                    shards.insert(queue_id, shard);
                    assert(shards@ =~= old(shards)@.insert(queue_id@, after));
                },
                None => {},
            }
            match object_wal.take() {
                Some(gc) => {
                    let mut gc = gc;
                    match position.as_u64() {
                        Some(offset) => {
                            gc.on_truncate(queue_id, offset);
                        },
                        None => {},
                    }
                    *object_wal = Some(gc);
                },
                None => {},
            }
            None
        },
    }
}

// ---- Reset ----

/// A queue and the position up to which its records are published.
pub struct QueuePublishPosition {
    pub queue_id: String,
    pub position: Position,
}

/// A step of a reset.
#[derive(Debug)]
pub enum ResetStep {
    Delete(String),
    Truncate(String, Position),
}

/// What a step asks for.
pub open spec fn reset_of(step: ResetStep) -> (Seq<char>, Option<Position>) {
    match step {
        ResetStep::Delete(queue_id) => (queue_id@, None),
        ResetStep::Truncate(queue_id, position) => (queue_id@, Some(position)),
    }
}

/// What steps ask for.
pub open spec fn resets_of(steps: Seq<ResetStep>) -> Seq<(Seq<char>, Option<Position>)> {
    Seq::new(steps.len(), |i: int| reset_of(steps[i]))
}

/// The deletions and truncations that the control plane advises: all deletions first.
pub open spec fn advised_resets(
    to_delete: Seq<String>,
    to_truncate: Seq<QueuePublishPosition>,
) -> Seq<(Seq<char>, Option<Position>)> {
    Seq::new(to_delete.len(), |i: int| (to_delete[i]@, None::<Position>)) + Seq::new(
        to_truncate.len(),
        |i: int| (to_truncate[i].queue_id@, Some(to_truncate[i].position)),
    )
}

/// Deletes and truncates the shards as directed by the control plane.
pub fn reset_shards(to_delete: Vec<String>, to_truncate: Vec<QueuePublishPosition>) -> (steps: Vec<
    ResetStep,
>)
    ensures
        resets_of(steps@) == advised_resets(to_delete@, to_truncate@),
{
    let mut steps: Vec<ResetStep> = Vec::new();
    for i in 0..to_delete.len()
        invariant
            steps@.len() == i,
            forall|j: int|
                0 <= j < i ==> reset_of(#[trigger] steps@[j]) == (to_delete@[j]@, None::<Position>),
    {
        steps.push(ResetStep::Delete(to_delete[i].clone()));
    }
    for i in 0..to_truncate.len()
        invariant
            steps@.len() == to_delete@.len() + i,
            forall|j: int|
                0 <= j < to_delete@.len() ==> reset_of(#[trigger] steps@[j]) == (
                    to_delete@[j]@,
                    None::<Position>,
                ),
            forall|j: int|
                to_delete@.len() <= j < steps@.len() ==> reset_of(#[trigger] steps@[j]) == (
                    to_truncate@[j - to_delete@.len()].queue_id@,
                    Some(to_truncate@[j - to_delete@.len()].position),
                ),
    {
        steps.push(
            ResetStep::Truncate(to_truncate[i].queue_id.clone(), to_truncate[i].position),
        );
    }
    assert(resets_of(steps@) =~= advised_resets(to_delete@, to_truncate@));
    steps
}

// ---- Laws ----

/// A record that is replayed into its queue stands there at its position.
pub proof fn replayed_record_stands_at_its_position(queues: QueueModels, record: RecordModel)
    requires
        record.position >= with_queue(queues, record.queue_id)[record.queue_id].next_position,
    ensures
        ({
            let queue = with_replayed(queues, record)[record.queue_id];
            queue.next_position == record.position + 1 && queue.records.last() == (
                record.position,
                record.record,
            )
        }),
{
}

/// A record that is replayed a second time changes nothing.
pub proof fn replay_is_idempotent(queues: QueueModels, record: RecordModel)
    ensures
        with_replayed(with_replayed(queues, record), record) == with_replayed(queues, record),
{
    let once = with_replayed(queues, record);
    assert(with_replayed(once, record) =~= once);
}

/// Replaying a record of one queue leaves every other queue alone.
pub proof fn replay_leaves_other_queues_alone(
    queues: QueueModels,
    record: RecordModel,
    other: Seq<char>,
)
    requires
        other != record.queue_id,
        queues.contains_key(other),
    ensures
        with_replayed(queues, record).contains_key(other),
        with_replayed(queues, record)[other] == queues[other],
{
}

/// A shard whose records have become durable stands at the last position that was recorded for it.
pub proof fn last_position_applied_stands(
    shards: Map<Seq<char>, IngesterShard>,
    positions: Seq<(Seq<char>, Position)>,
    at: nat,
    n: nat,
)
    requires
        at < n <= positions.len(),
        shards.contains_key(positions[at as int].0),
        forall|i: int| at < i < n ==> (#[trigger] positions[i]).0 != positions[at as int].0,
    ensures
        with_positions(shards, positions, n).contains_key(positions[at as int].0),
        with_positions(shards, positions, n)[positions[at as int].0].replication_position_inclusive
            == positions[at as int].1,
    decreases n,
{
    if at < n - 1 {
        last_position_applied_stands(shards, positions, at, (n - 1) as nat);
    } else {
        applied_positions_keep_shards(shards, positions, (n - 1) as nat);
    }
}

/// Applying positions neither adds nor removes shards.
pub proof fn applied_positions_keep_shards(
    shards: Map<Seq<char>, IngesterShard>,
    positions: Seq<(Seq<char>, Position)>,
    n: nat,
)
    requires
        n <= positions.len(),
    ensures
        with_positions(shards, positions, n).dom() == shards.dom(),
    decreases n,
{
    if n > 0 {
        applied_positions_keep_shards(shards, positions, (n - 1) as nat);
        assert(with_positions(shards, positions, n).dom() =~= shards.dom());
    }
}

/// Truncation positions only ever move on: a shard is not truncated at a position that it has
/// reached.
pub proof fn truncation_positions_move_on(before: Position, position: Position)
    requires
        !before.reaches(position),
    ensures
        position.reaches(before),
        position != before,
{
}

/// What the check of a decommissioning ingester calls for, from what is known of its shards.
pub open spec fn decommissioning_step(
    status: IngesterStatus,
    empty_orphans: Seq<bool>,
) -> DecommissioningStep {
    if status != IngesterStatus::Decommissioning {
        DecommissioningStep::Ignore
    } else if empty_orphans.contains(false) {
        DecommissioningStep::Notify
    } else {
        DecommissioningStep::SetDecommissioned
    }
}

/// Only an ingester that is being decommissioned becomes decommissioned, and only once no shard is
/// left that someone may still read or delete: one such shard holds it back.
pub proof fn decommissioning_waits_for_every_shard(
    status: IngesterStatus,
    empty_orphans: Seq<bool>,
    at: int,
)
    ensures
        decommissioning_step(status, empty_orphans) is Ignore <==> status
            != IngesterStatus::Decommissioning,
        0 <= at < empty_orphans.len() && !empty_orphans[at] ==> decommissioning_step(
            status,
            empty_orphans,
        ) != DecommissioningStep::SetDecommissioned,
        status == IngesterStatus::Decommissioning && (forall|i: int|
            0 <= i < empty_orphans.len() ==> #[trigger] empty_orphans[i]) ==> decommissioning_step(
            status,
            empty_orphans,
        ) is SetDecommissioned,
{
}

/// Whether the state of an ingester can be used.
pub open spec fn usable(before: IngesterStatus, locked: IngesterStatus) -> bool {
    before != IngesterStatus::Initializing && locked != IngesterStatus::Failed
}

/// An ingester that starts, or failed to, answers no request. Every other one does, also one that is
/// being decommissioned or was.
pub proof fn started_ingesters_are_usable(before: IngesterStatus, locked: IngesterStatus)
    ensures
        before is Initializing || locked is Failed ==> !usable(before, locked),
        (before is Ready || before is Decommissioning || before is Decommissioned || before is Failed)
            && (locked is Initializing || locked is Ready || locked is Decommissioning
            || locked is Decommissioned) ==> usable(before, locked),
{
}

/// The status of an ingester that was started.
pub open spec fn initialized_status(
    has_object_wal: bool,
    cleared: bool,
    opened: bool,
) -> IngesterStatus {
    if opened && (has_object_wal ==> cleared) {
        IngesterStatus::Ready
    } else {
        IngesterStatus::Failed
    }
}

/// An ingester is ready or has failed once it was started. A log that cannot be opened always fails
/// it, and one that cannot be cleared does where the object-store log takes its place.
pub proof fn failed_logs_fail_the_ingester(has_object_wal: bool, cleared: bool, opened: bool)
    ensures
        initialized_status(has_object_wal, cleared, false) is Failed,
        initialized_status(true, false, opened) is Failed,
        initialized_status(false, cleared, true) is Ready,
        initialized_status(has_object_wal, true, true) is Ready,
{
}

/// A shard takes the records of a source exactly if it is a shard of that source, and open.
pub proof fn only_open_shards_take_records(
    shard: IngesterShard,
    index_uid: Seq<char>,
    source_id: Seq<char>,
)
    ensures
        takes_records(shard, shard.key.index_uid@, shard.key.source_id@) <==> shard.state is Open,
        takes_records(shard, index_uid, source_id) ==> shard.key.index_uid@ == index_uid
            && shard.key.source_id@ == source_id,
{
}

/// How many open shards of a source are counted.
pub open spec fn num_open(source: Option<SourceShardsModel>) -> nat {
    match source {
        Some(source) => source.num_open_shards,
        None => 0,
    }
}

/// The closed shards of a source that are named.
pub open spec fn closed_ids(source: Option<SourceShardsModel>) -> Seq<Seq<char>> {
    match source {
        Some(source) => source.closed_shard_ids,
        None => seq![],
    }
}

/// Of the shards of a source, the open ones are counted and the closed ones named, one by one. One
/// that is not advertised, one of another source, and one that cannot be reached are neither.
pub proof fn sources_count_their_own_shards(
    shards: Seq<IngesterShard>,
    index_uid: Seq<char>,
    source_id: Seq<char>,
    n: nat,
)
    requires
        n < shards.len(),
    ensures
        source_shards(shards, index_uid, source_id, 0) is None,
        ({
            let before = source_shards(shards, index_uid, source_id, n);
            let after = source_shards(shards, index_uid, source_id, n + 1);
            let shard = shards[n as int];
            let is_counted = shard.is_advertisable && shard.key.index_uid@ == index_uid
                && shard.key.source_id@ == source_id;
            &&& !is_counted ==> after == before
            &&& is_counted ==> after is Some
            &&& is_counted && shard.state is Open ==> num_open(after) == num_open(before) + 1
                && closed_ids(after) == closed_ids(before)
            &&& is_counted && shard.state is Closed ==> num_open(after) == num_open(before)
                && closed_ids(after) == closed_ids(before).push(shard.key.shard_id@)
            &&& is_counted && shard.state is Unavailable ==> num_open(after) == num_open(before)
                && closed_ids(after) == closed_ids(before)
        }),
{
}

/// A source is known exactly if one of its shards is advertised, and a shard is named among its closed
/// ones exactly if such a shard has that id and is closed.
pub proof fn sources_name_their_closed_shards(
    shards: Seq<IngesterShard>,
    index_uid: Seq<char>,
    source_id: Seq<char>,
    n: nat,
    shard_id: Seq<char>,
)
    requires
        n <= shards.len(),
    ensures
        source_shards(shards, index_uid, source_id, n) is Some <==> exists|i: int|
            0 <= i < n && (#[trigger] shards[i]).is_advertisable && shards[i].key.index_uid@
                == index_uid && shards[i].key.source_id@ == source_id,
        closed_ids(source_shards(shards, index_uid, source_id, n)).contains(shard_id)
            <==> exists|i: int|
            0 <= i < n && (#[trigger] shards[i]).is_advertisable && shards[i].key.index_uid@
                == index_uid && shards[i].key.source_id@ == source_id
                && shards[i].state is Closed && shards[i].key.shard_id@ == shard_id,
    decreases n,
{
    if n > 0 {
        let last = (n - 1) as nat;
        sources_name_their_closed_shards(shards, index_uid, source_id, last, shard_id);
        sources_count_their_own_shards(shards, index_uid, source_id, last);
        let before = closed_ids(source_shards(shards, index_uid, source_id, last));
        let after = closed_ids(source_shards(shards, index_uid, source_id, n));
        let shard = shards[n - 1];
        if after == before.push(shard.key.shard_id@) && shard.state is Closed {
            assert(after[before.len() as int] == shard.key.shard_id@);
            if before.contains(shard_id) {
                let i = choose|i: int| 0 <= i < before.len() && before[i] == shard_id;
                assert(after[i] == shard_id);
            }
            if after.contains(shard_id) && shard.key.shard_id@ != shard_id {
                let i = choose|i: int| 0 <= i < after.len() && after[i] == shard_id;
                assert(before[i] == shard_id);
            }
        }
    }
}

/// A snapshot lists the source of every advertised shard, once, with the number of its open shards.
pub proof fn snapshots_list_every_advertised_source(
    list: Seq<(String, String, usize)>,
    shards: Seq<IngesterShard>,
    i: int,
)
    requires
        counts_open_shards(list, shards),
        0 <= i < shards.len(),
        shards[i].is_advertisable,
    ensures
        exists|j: int|
            0 <= j < list.len() && (#[trigger] list[j]).0@ == shards[i].key.index_uid@
                && list[j].1@ == shards[i].key.source_id@ && list[j].2 == num_open(
                source_shards(
                    shards,
                    shards[i].key.index_uid@,
                    shards[i].key.source_id@,
                    shards.len(),
                ),
            ),
        forall|j: int, k: int|
            0 <= j < k < list.len() && (#[trigger] list[j]).0@ == (#[trigger] list[k]).0@
                ==> list[j].1@ != list[k].1@,
{
    sources_name_their_closed_shards(
        shards,
        shards[i].key.index_uid@,
        shards[i].key.source_id@,
        shards.len(),
        seq![],
    );
}

/// A snapshot names every closed shard that is advertised, under its source.
pub proof fn snapshots_name_every_closed_shard(
    list: Seq<ShardIds>,
    shards: Seq<IngesterShard>,
    i: int,
)
    requires
        names_closed_shards(list, shards),
        0 <= i < shards.len(),
        shards[i].is_advertisable,
        shards[i].state is Closed,
    ensures
        exists|j: int|
            0 <= j < list.len() && (#[trigger] list[j]).index_uid@ == shards[i].key.index_uid@
                && list[j].source_id@ == shards[i].key.source_id@ && crate::path::texts(
                list[j].shard_ids@,
            ).contains(shards[i].key.shard_id@),
        forall|j: int| 0 <= j < list.len() ==> (#[trigger] list[j]).shard_ids@.len() > 0,
{
    let key = shards[i].key;
    sources_name_their_closed_shards(
        shards,
        key.index_uid@,
        key.source_id@,
        shards.len(),
        key.shard_id@,
    );
    let source = source_shards(shards, key.index_uid@, key.source_id@, shards.len());
    assert(source is Some && source->0.closed_shard_ids.contains(key.shard_id@));
    assert(source->0.closed_shard_ids.len() > 0);
}

/// Queues are added by name: those that were there stay as they are, each new one is empty and starts
/// at the first position, and there are no others.
pub proof fn named_queues_are_added_empty(
    queues: QueueModels,
    names: Seq<Seq<char>>,
    n: nat,
    queue_id: Seq<char>,
)
    requires
        n <= names.len(),
    ensures
        with_queues(queues, names, n).contains_key(queue_id) <==> queues.contains_key(queue_id)
            || exists|i: int| 0 <= i < n && #[trigger] names[i] == queue_id,
        queues.contains_key(queue_id) ==> with_queues(queues, names, n)[queue_id]
            == queues[queue_id],
        with_queues(queues, names, n).contains_key(queue_id) && !queues.contains_key(queue_id) ==> ({
            let queue = with_queues(queues, names, n)[queue_id];
            queue.records.len() == 0 && queue.next_position == 0 && queue.last_appended is None
        }),
    decreases n,
{
    if n > 0 {
        named_queues_are_added_empty(queues, names, (n - 1) as nat, queue_id);
        assert(names[n - 1] == names[n - 1]);
    }
}

/// A record is taken exactly if it does not stand before the next position of its queue, so in an
/// unknown queue always; one that is not taken leaves its queue as it was. Its queue is known
/// afterwards, and no other queue is new.
pub proof fn records_behind_the_queue_are_taken(queues: QueueModels, record: RecordModel)
    requires
        record.position >= 0,
    ensures
        queues.contains_key(record.queue_id) ==> (accepted(queues, record) <==> record.position
            >= queues[record.queue_id].next_position),
        !queues.contains_key(record.queue_id) ==> accepted(queues, record),
        !accepted(queues, record) ==> with_replayed(queues, record) == queues,
        with_replayed(queues, record).dom() == queues.dom().insert(record.queue_id),
        accepted(queues, record) && queues.contains_key(record.queue_id) ==> with_replayed(
            queues,
            record,
        )[record.queue_id].records == queues[record.queue_id].records.push(
            (record.position, record.record),
        ),
        !queues.contains_key(record.queue_id) ==> with_replayed(
            queues,
            record,
        )[record.queue_id].records == seq![(record.position, record.record)],
{
    assert(with_queue(queues, record.queue_id).dom() == queues.dom().insert(record.queue_id));
    if !queues.contains_key(record.queue_id) {
        assert(Seq::<(int, Seq<u8>)>::empty().push((record.position, record.record)) == seq![
            (record.position, record.record),
        ]);
    }
}

/// Records are replayed one after the other, and what they add to the usage is counted for those that
/// are taken, each with its length.
pub proof fn taken_records_are_counted(queues: QueueModels, records: Seq<RecordModel>, n: nat)
    requires
        n < records.len(),
    ensures
        with_all_replayed(queues, records, 0) == queues,
        accepted_totals(queues, records, 0) == (0int, 0int),
        replayed_bytes(records, 0) == 0,
        replayed_bytes(records, n + 1) == replayed_bytes(records, n) + records[n as int].record.len(),
        ({
            let so_far = with_all_replayed(queues, records, n);
            let after = with_all_replayed(queues, records, n + 1);
            let (bytes, count) = accepted_totals(queues, records, n);
            let (more_bytes, more) = accepted_totals(queues, records, n + 1);
            let record = records[n as int];
            &&& after == with_replayed(so_far, record)
            &&& so_far.contains_key(record.queue_id) && record.position
                < so_far[record.queue_id].next_position ==> more == count && more_bytes == bytes
            &&& so_far.contains_key(record.queue_id) && record.position
                >= so_far[record.queue_id].next_position ==> more == count + 1 && more_bytes
                == bytes + record.record.len()
            &&& !so_far.contains_key(record.queue_id) && record.position >= 0 ==> more == count + 1
                && more_bytes == bytes + record.record.len()
        }),
{
}

/// A shard that is recovered is closed and advertised. It was replicated up to the last record of its
/// queue, and truncated up to right before the first.
pub proof fn recovered_shards_hold_what_their_queue_holds(
    shard: IngesterShard,
    local: LocalQueue,
    key: QueueKey,
    queue: QueueModel,
)
    ensures
        is_recovered_local(shard, local) ==> {
            &&& local.key == Some(shard.key)
            &&& shard.state is Closed
            &&& shard.is_advertisable
            &&& shard.mem_queue is None
            &&& local.end matches Some(end) ==> shard.replication_position_inclusive
                == Position::Offset(end)
            &&& local.end is None ==> shard.replication_position_inclusive is Beginning
            &&& shard.truncation_position_inclusive.next_offset() == local.start
            &&& !(shard.truncation_position_inclusive is Eof)
        },
        is_recovered_mem(shard, key, queue) && 0 <= queue.first_position() <= u64::MAX ==> {
            &&& shard.key == key
            &&& shard.state is Closed
            &&& shard.is_advertisable
            &&& shard.mem_queue is Some
            &&& shard.mem_queue->0@ == queue
            &&& queue.last_appended matches Some(last) ==> shard.replication_position_inclusive
                == Position::Offset(last)
            &&& queue.last_appended is None ==> shard.replication_position_inclusive is Beginning
            &&& shard.truncation_position_inclusive.next_offset() == queue.first_position()
            &&& !(shard.truncation_position_inclusive is Eof)
        },
{
}

/// Recovered shards are counted one by one: a queue counts exactly if its name tells a shard.
pub proof fn recovered_shards_are_counted(
    local: Seq<LocalQueue>,
    recovered: Seq<RecoveredQueue>,
    from: nat,
)
    ensures
        local_shards_from(local, local.len()) == 0,
        recovered_shards_from(recovered, recovered.len()) == 0,
        from < local.len() && local[from as int].key is Some ==> local_shards_from(local, from)
            == local_shards_from(local, from + 1) + 1,
        from < local.len() && local[from as int].key is None ==> local_shards_from(local, from)
            == local_shards_from(local, from + 1),
        from < recovered.len() && recovered[from as int].key is Some ==> recovered_shards_from(
            recovered,
            from,
        ) == recovered_shards_from(recovered, from + 1) + 1,
        from < recovered.len() && recovered[from as int].key is None ==> recovered_shards_from(
            recovered,
            from,
        ) == recovered_shards_from(recovered, from + 1),
{
}

/// What a recovery releases from memory: a queue whose name tells no shard, for it is dropped, and the
/// queue that a shard had before, for another takes its place. Nothing else is released.
pub proof fn only_dropped_queues_are_released(
    shards: Map<Seq<char>, IngesterShard>,
    queue: RecoveredQueue,
)
    ensures
        queue.key is None ==> queue_released(shards, queue) == Some(queue.mem_queue@),
        queue.key is Some && !shards.contains_key(queue.queue_id@) ==> queue_released(shards, queue)
            is None,
        queue.key is Some && shards.contains_key(queue.queue_id@)
            && shards[queue.queue_id@].mem_queue is None ==> queue_released(shards, queue) is None,
        queue.key is Some && shards.contains_key(queue.queue_id@)
            && shards[queue.queue_id@].mem_queue is Some ==> queue_released(shards, queue) == Some(
            shards[queue.queue_id@].mem_queue->0@,
        ),
{
}

/// What the queues of a recovery release adds up, bytes and records alike.
pub proof fn released_queues_add_up(
    shards: Map<Seq<char>, IngesterShard>,
    queues: Seq<RecoveredQueue>,
    from: nat,
)
    ensures
        released_from(shards, queues, queues.len()) == (0int, 0int),
        from < queues.len() ==> ({
            let (bytes, count) = released_from(shards, queues, from);
            let (rest_bytes, rest) = released_from(shards, queues, from + 1);
            match queue_released(shards, queues[from as int]) {
                Some(released) => bytes - rest_bytes == released.num_bytes() && count - rest
                    == released.records.len(),
                None => bytes == rest_bytes && count == rest,
            }
        }),
{
}

/// Applied positions change nothing of a shard but how far it is replicated, and nothing at all of a
/// shard that none of them is about.
pub proof fn applied_positions_change_the_replication_alone(
    shards: Map<Seq<char>, IngesterShard>,
    positions: Seq<(Seq<char>, Position)>,
    n: nat,
    queue_id: Seq<char>,
)
    requires
        n <= positions.len(),
        shards.contains_key(queue_id),
    ensures
        ({
            let before = shards[queue_id];
            let after = with_positions(shards, positions, n)[queue_id];
            &&& with_positions(shards, positions, n).contains_key(queue_id)
            &&& after.key == before.key
            &&& after.state == before.state
            &&& after.truncation_position_inclusive == before.truncation_position_inclusive
            &&& after.is_advertisable == before.is_advertisable
            &&& after.mem_queue == before.mem_queue
            &&& (forall|i: int| 0 <= i < n ==> (#[trigger] positions[i]).0 != queue_id) ==> after
                == before
        }),
    decreases n,
{
    if n > 0 {
        applied_positions_change_the_replication_alone(
            shards,
            positions,
            (n - 1) as nat,
            queue_id,
        );
        assert(positions[n - 1] == positions[n - 1]);
    }
}

/// How the truncation of a shard, if there is one, goes on.
pub open spec fn truncate_step(shard: Option<IngesterShard>, position: Position) -> TruncateStep {
    match shard {
        None => TruncateStep::Ignore,
        Some(shard) => if shard.truncation_position_inclusive.reaches(position) {
            TruncateStep::Ignore
        } else {
            match position.offset() {
                Some(offset) => if shard.mem_queue is Some {
                    TruncateStep::Finish
                } else {
                    TruncateStep::TruncateLog(offset)
                },
                None => TruncateStep::Finish,
            }
        },
    }
}

/// A truncation is passed over exactly if there is no such shard, or the shard is truncated that far.
/// The local log is truncated only for a shard that holds its records there, exactly up to the offset
/// of the position.
pub proof fn truncations_that_move_on_are_made(shard: IngesterShard, position: Position, offset: u64)
    ensures
        truncate_step(None, position) is Ignore,
        truncate_step(Some(shard), position) is Ignore <==>
            shard.truncation_position_inclusive.reaches(position),
        truncate_step(Some(shard), position) matches TruncateStep::TruncateLog(at)
            ==> position.offset() == Some(at) && shard.mem_queue is None,
        shard.truncation_position_inclusive is Beginning && shard.mem_queue is None ==> truncate_step(
            Some(shard),
            Position::Offset(offset),
        ) == TruncateStep::TruncateLog(offset),
        shard.mem_queue is Some && !shard.truncation_position_inclusive.reaches(position)
            ==> truncate_step(Some(shard), position) is Finish,
{
}

/// What is advised is done one by one, each queue with its own position: first the deletions, in their
/// order, then the truncations, in theirs.
pub proof fn advice_is_followed_in_order(
    to_delete: Seq<String>,
    to_truncate: Seq<QueuePublishPosition>,
    steps: Seq<ResetStep>,
    i: int,
)
    requires
        resets_of(steps) == advised_resets(to_delete, to_truncate),
    ensures
        steps.len() == to_delete.len() + to_truncate.len(),
        0 <= i < to_delete.len() ==> (steps[i] is Delete && steps[i]->Delete_0@ == to_delete[i]@),
        0 <= i < to_truncate.len() ==> ({
            let step = steps[to_delete.len() + i];
            step is Truncate && step->Truncate_0@ == to_truncate[i].queue_id@ && step->Truncate_1
                == to_truncate[i].position
        }),
{
    let resets = resets_of(steps);
    assert(resets.len() == to_delete.len() + to_truncate.len());
    if 0 <= i < to_delete.len() {
        assert(resets[i] == (to_delete[i]@, None::<Position>));
    }
    if 0 <= i < to_truncate.len() {
        assert(resets[to_delete.len() + i] == (
            to_truncate[i].queue_id@,
            Some(to_truncate[i].position),
        ));
    }
}

} // verus!
