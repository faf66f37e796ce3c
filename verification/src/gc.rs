//! Cluster-wide garbage collection of the ingest WAL, run by the janitor.
//!
//! An ingester deletes its own objects as its shards get truncated. This pass covers everything
//! that has no owner to do it: logs of ingesters that left the cluster, objects an ingester did not
//! get to delete before dying, and old fence objects.
//!
//! One pass:
//!
//! 1. list the WAL root, group objects per ingester log ([`group_logs`]);
//! 2. read the footer of every object ([`assess_footer`]);
//! 3. ask the metastore for the publish position of every shard referenced ([`sources_to_ask`]);
//! 4. delete every object older than `min_age` whose records are all published (or whose shards no
//!    longer exist), and every fence but the newest one of its log ([`plan_pass`],
//!    [`paths_to_delete`], [`finish_pass`]).
//!
//! The newest fence of a log is never deleted: it carries the log's current epoch when no
//! data object follows it. One small object per node id ever seen is the price.
//!
//! Deleting an object out from under a live ingester is safe: it only happens once every
//! record is published, and the ingester's own collection tolerates missing objects.

use vstd::prelude::*;

use crate::position::{Position, PublishPosition};
use crate::text::{is_text_before, same_text};
use crate::text_map::TextMap;
use crate::wal::format::{WalBlockMeta, WalFooter};
use crate::wal::{parse_ingester_object_path, StorageErrorKind, WalError, WalId, WalResult};
#[allow(unused_imports)]
use crate::{text, wal};

verus! {

/// Where the records of a shard stand, as far as the metastore knows.
#[derive(Clone, Copy, Debug, PartialEq, Eq, Structural)]
pub enum ShardPublishStatus {
    /// Published up to this position (inclusive). `Position::Beginning` = nothing yet.
    Published(PublishPosition),
    /// The shard, its source or its index no longer exists: nothing will ever read it.
    Gone,
}

impl ShardPublishStatus {
    /// Whether nothing at or before a position is needed any more. `None` is a queue marker: only a
    /// gone shard covers it. An offset that is no number covers nothing.
    pub open spec fn covers_position(self, last_position: Option<u64>) -> bool {
        match self {
            ShardPublishStatus::Gone => true,
            ShardPublishStatus::Published(PublishPosition::At(position)) => match position {
                Position::Eof(_) => last_position is Some,
                Position::Offset(offset) => last_position matches Some(last) && offset >= last,
                Position::Beginning => false,
            },
            ShardPublishStatus::Published(PublishPosition::NotANumber) => false,
        }
    }

    /// Whether nothing at or before a position is needed any more.
    pub fn covers(&self, last_position: Option<u64>) -> (covered: bool)
        ensures
            covered == self.covers_position(last_position),
    {
        match last_position {
            None => matches!(self, ShardPublishStatus::Gone),
            Some(last) => match self {
                ShardPublishStatus::Gone => true,
                ShardPublishStatus::Published(PublishPosition::At(position)) => match position {
                    Position::Eof(_) => true,
                    Position::Offset(offset) => *offset >= last,
                    Position::Beginning => false,
                },
                ShardPublishStatus::Published(PublishPosition::NotANumber) => false,
            },
        }
    }
}

/// Parameters of a GC pass.
#[derive(Clone, Copy, Debug, PartialEq, Eq, Structural)]
pub struct IngestWalGcParams {
    /// Objects younger than this, in nanoseconds, are never deleted. Guards against listing
    /// staleness and against racing an ingester's own bookkeeping; not needed for correctness.
    pub min_age_nanos: u128,
    /// Report what would be deleted without deleting it.
    pub dry_run: bool,
}

impl Default for IngestWalGcParams {
    fn default() -> (params: Self)
        ensures
            params.min_age_nanos == 10 * 60 * 1_000_000_000,
            !params.dry_run,
    {
        IngestWalGcParams { min_age_nanos: 600_000_000_000, dry_run: false }
    }
}

/// Outcome of a GC pass.
#[derive(Clone, Copy, Debug, Default, PartialEq, Eq, Structural)]
pub struct IngestWalGcReport {
    pub num_logs: usize,
    pub num_objects: usize,
    pub num_deleted_objects: usize,
    pub num_deleted_bytes: u64,
    /// Objects that could not be assessed (footer read failed, metastore error) and were kept.
    pub num_skipped_objects: usize,
    pub num_failed_deletions: usize,
}

// ---- 1. Listing ----

/// An object of the listing.
pub struct ListedObject {
    pub path: String,
    pub num_bytes: u64,
    /// In nanoseconds since a fixed point in time.
    pub last_modified_nanos: u128,
}

/// The shard that a queue belongs to.
#[derive(Clone, Debug, PartialEq, Eq)]
pub struct QueueKey {
    pub index_uid: String,
    pub source_id: String,
    pub shard_id: String,
}

/// What a block of an object pins: the shard of its queue, where the queue id names one, and the
/// position of its last record, or `None` for a queue marker.
#[derive(Clone, Debug, PartialEq, Eq)]
pub struct GcBlock {
    pub key: Option<QueueKey>,
    pub last_position: Option<u64>,
}

/// What the footer of an object says.
#[derive(Clone, Debug, PartialEq, Eq)]
pub struct GcFooter {
    pub is_fence: bool,
    pub blocks: Vec<GcBlock>,
}

/// An object of a log.
pub struct GcObject {
    pub wal_id: WalId,
    pub path: String,
    pub num_bytes: u64,
    pub last_modified_nanos: u128,
    /// `None` until the footer is read, and for an object that could not be assessed.
    pub footer: Option<GcFooter>,
}

/// The objects of an ingester's log.
pub struct GcLog {
    pub ingester_id: String,
    pub objects: Vec<GcObject>,
}

/// What a listing says of an object.
pub struct ObjectModel {
    pub wal_id: u64,
    pub path: Seq<char>,
    pub num_bytes: u64,
    pub last_modified_nanos: u128,
}

/// The objects of an ingester's log among the first `n` listed ones.
pub open spec fn listed_of(listed: Seq<ListedObject>, ingester_id: Seq<char>, n: nat) -> Seq<
    ObjectModel,
>
    decreases n,
{
    if n == 0 {
        seq![]
    } else {
        let before = listed_of(listed, ingester_id, (n - 1) as nat);
        let last = listed[n - 1];
        match wal::ingester_object(last.path@) {
            Some((ingester, wal_id)) => if ingester == ingester_id {
                before.push(
                    ObjectModel {
                        wal_id,
                        path: last.path@,
                        num_bytes: last.num_bytes,
                        last_modified_nanos: last.last_modified_nanos,
                    },
                )
            } else {
                before
            },
            None => before,
        }
    }
}

/// What the listing said of the objects of a log.
pub open spec fn object_models(objects: Seq<GcObject>) -> Seq<ObjectModel> {
    Seq::new(
        objects.len(),
        |i: int|
            ObjectModel {
                wal_id: objects[i].wal_id.0,
                path: objects[i].path@,
                num_bytes: objects[i].num_bytes,
                last_modified_nanos: objects[i].last_modified_nanos,
            },
    )
}

/// Whether logs are in the order of their ingesters, each once.
pub open spec fn logs_in_order(logs: Seq<GcLog>) -> bool {
    forall|i: int, j: int|
        0 <= i < j < logs.len() ==> text::text_before(
            logs[i].ingester_id@,
            logs[j].ingester_id@,
        )
}

/// Whether no footer is read yet.
pub open spec fn unassessed(logs: Seq<GcLog>) -> bool {
    forall|i: int, j: int|
        0 <= i < logs.len() && 0 <= j < logs[i].objects@.len() ==> (
        #[trigger] logs[i].objects@[j]).footer is None
}

/// Whether logs hold the first `n` listed objects, each in the log of its ingester, in the order of
/// the listing.
pub open spec fn groups(logs: Seq<GcLog>, listed: Seq<ListedObject>, n: nat) -> bool {
    &&& forall|i: int|
        0 <= i < logs.len() ==> object_models((#[trigger] logs[i]).objects@) == listed_of(
            listed,
            logs[i].ingester_id@,
            n,
        ) && logs[i].objects@.len() > 0
    &&& forall|id: Seq<char>| #[trigger]
        listed_of(listed, id, n).len() > 0 ==> exists|i: int|
            0 <= i < logs.len() && (#[trigger] logs[i]).ingester_id@ == id
}

/// Where a log stands or belongs among logs in order.
fn log_index(logs: &Vec<GcLog>, ingester_id: &str) -> (index: (usize, bool))
    requires
        logs_in_order(logs@),
    ensures
        index.0 <= logs@.len(),
        index.1 ==> index.0 < logs@.len() && logs@[index.0 as int].ingester_id@ == ingester_id@,
        forall|i: int|
            0 <= i < index.0 ==> text::text_before(
                (#[trigger] logs@[i]).ingester_id@,
                ingester_id@,
            ),
        !index.1 ==> forall|i: int|
            index.0 <= i < logs@.len() ==> text::text_before(
                ingester_id@,
                (#[trigger] logs@[i]).ingester_id@,
            ),
{
    let mut i: usize = 0;
    while i < logs.len() && is_text_before(logs[i].ingester_id.as_str(), ingester_id)
        invariant
            i <= logs@.len(),
            forall|j: int|
                0 <= j < i ==> text::text_before((#[trigger] logs@[j]).ingester_id@, ingester_id@),
        decreases logs@.len() - i,
    {
        i = i + 1;
    }
    if i < logs.len() && same_text(logs[i].ingester_id.as_str(), ingester_id) {
        return (i, true);
    }
    proof {
        if i < logs@.len() {
            let first = logs@[i as int].ingester_id@;
            text::texts_are_ordered(first, ingester_id@);
            assert forall|j: int| i <= j < logs@.len() implies text::text_before(
                ingester_id@,
                (#[trigger] logs@[j]).ingester_id@,
            ) by {
                if j > i {
                    text::text_order_is_transitive(ingester_id@, first, logs@[j].ingester_id@);
                }
            }
        }
    }
    (i, false)
}

fn add_to_log(logs: &mut Vec<GcLog>, ingester_id: String, object: GcObject)
    requires
        logs_in_order(old(logs)@),
        unassessed(old(logs)@),
        has_objects(old(logs)@),
        object.footer is None,
    ensures
        logs_in_order(final(logs)@),
        unassessed(final(logs)@),
        forall|i: int| #![trigger final(logs)@[i]]
            0 <= i < final(logs)@.len() ==> ({
                let log = final(logs)@[i];
                let before = log_objects(old(logs)@, log.ingester_id@);
                object_models(log.objects@) == if log.ingester_id@ == ingester_id@ {
                    before + object_models(seq![object])
                } else {
                    before
                }
            }),
        forall|id: Seq<char>| #[trigger]
            has_log(old(logs)@, id) ==> has_log(final(logs)@, id),
        has_log(final(logs)@, ingester_id@),
        has_objects(final(logs)@),
{
    let (index, found) = log_index(logs, ingester_id.as_str());
    let ghost before = logs@;
    let ghost added = object;
    if found {
        let ghost objects = logs@[index as int].objects@;
        logs[index].objects.push(object);
        proof {
            assert(logs@ =~= before.update(index as int, logs@[index as int]));
            assert(object_models(logs@[index as int].objects@) =~= object_models(objects)
                + object_models(seq![added]));
            assert forall|i: int| #![trigger logs@[i]] 0 <= i < logs@.len() implies log_objects(
                before,
                logs@[i].ingester_id@,
            ) == object_models(before[i].objects@) && (logs@[i].ingester_id@ == ingester_id@ <==> i
                == index) by {
                lemma_log_objects(before, i);
                if logs@[i].ingester_id@ == ingester_id@ && i != index {
                    lemma_ids_differ(before, i, index as int);
                }
            }
            assert(logs@[index as int].ingester_id@ == ingester_id@);
            assert forall|id: Seq<char>| #[trigger] has_log(before, id) implies has_log(logs@, id) by {
                let i = log_of(before, id);
                assert(logs@[i].ingester_id@ == id);
            }
            assert forall|i: int, j: int|
                0 <= i < logs@.len() && 0 <= j < logs@[i].objects@.len() implies (
            #[trigger] logs@[i].objects@[j]).footer is None by {
                if i == index && j == objects.len() {
                } else {
                    assert(before[i].objects@[j].footer is None);
                }
            }
        }
    } else {
        let mut objects: Vec<GcObject> = Vec::new();
        objects.push(object);
        assert(objects@ =~= seq![added]);
        let ghost key = ingester_id@;
        let log = GcLog { ingester_id, objects };
        let ghost new_log = log;
        logs.insert(index, log);
        proof {
            assert(logs@ =~= before.insert(index as int, new_log));
            assert forall|i: int, j: int| 0 <= i < j < logs@.len() implies text::text_before(
                logs@[i].ingester_id@,
                logs@[j].ingester_id@,
            ) by {
                if i != index && j != index {
                    let a = if i < index {
                        i
                    } else {
                        i - 1
                    };
                    let b = if j < index {
                        j
                    } else {
                        j - 1
                    };
                    assert(text::text_before(before[a].ingester_id@, before[b].ingester_id@));
                }
            }
            assert(log_objects(before, key) =~= seq![]) by {
                if has_log(before, key) {
                    let i = choose|i: int|
                        0 <= i < before.len() && (#[trigger] before[i]).ingester_id@ == key;
                    text::texts_are_ordered(key, key);
                }
            }
            assert(Seq::<ObjectModel>::empty() + object_models(seq![added]) =~= object_models(
                seq![added],
            ));
            assert forall|i: int| #![trigger logs@[i]] 0 <= i < logs@.len() && i
                != index implies log_objects(before, logs@[i].ingester_id@) == object_models(
                logs@[i].objects@,
            ) && logs@[i].ingester_id@ != key by {
                let a = if i < index {
                    i
                } else {
                    i - 1
                };
                lemma_log_objects(before, a);
                text::texts_are_ordered(key, key);
                assert(before[a] == logs@[i]);
            }
            assert(logs@[index as int].ingester_id@ == key);
            assert forall|id: Seq<char>| #[trigger] has_log(before, id) implies has_log(logs@, id) by {
                let i = log_of(before, id);
                let a = if i < index {
                    i
                } else {
                    i + 1
                };
                assert(logs@[a].ingester_id@ == id);
            }
            assert forall|i: int, j: int|
                0 <= i < logs@.len() && 0 <= j < logs@[i].objects@.len() implies (
            #[trigger] logs@[i].objects@[j]).footer is None by {
                if i != index {
                    let a = if i < index {
                        i
                    } else {
                        i - 1
                    };
                    assert(before[a] == logs@[i]);
                    assert(before[a].objects@[j].footer is None);
                }
            }
        }
    }
}

/// Whether an ingester has a log.
spec fn has_log(logs: Seq<GcLog>, id: Seq<char>) -> bool {
    exists|i: int| 0 <= i < logs.len() && (#[trigger] logs[i]).ingester_id@ == id
}

/// Whether no log is empty.
spec fn has_objects(logs: Seq<GcLog>) -> bool {
    forall|i: int| 0 <= i < logs.len() ==> (#[trigger] logs[i]).objects@.len() > 0
}

/// The objects of an ingester's log, none for an ingester without one.
spec fn log_objects(logs: Seq<GcLog>, id: Seq<char>) -> Seq<ObjectModel> {
    if has_log(logs, id) {
        object_models(logs[log_of(logs, id)].objects@)
    } else {
        seq![]
    }
}

/// Where the log of an ingester stands.
spec fn log_of(logs: Seq<GcLog>, id: Seq<char>) -> int {
    choose|i: int| 0 <= i < logs.len() && (#[trigger] logs[i]).ingester_id@ == id
}

proof fn lemma_ids_differ(logs: Seq<GcLog>, i: int, j: int)
    requires
        logs_in_order(logs),
        0 <= i < logs.len(),
        0 <= j < logs.len(),
        i != j,
    ensures
        logs[i].ingester_id@ != logs[j].ingester_id@,
{
    text::texts_are_ordered(logs[i].ingester_id@, logs[j].ingester_id@);
    if i < j {
        assert(text::text_before(logs[i].ingester_id@, logs[j].ingester_id@));
    } else {
        assert(text::text_before(logs[j].ingester_id@, logs[i].ingester_id@));
    }
}

proof fn lemma_log_objects(logs: Seq<GcLog>, i: int)
    requires
        logs_in_order(logs),
        0 <= i < logs.len(),
    ensures
        log_objects(logs, logs[i].ingester_id@) == object_models(logs[i].objects@),
{
    let id = logs[i].ingester_id@;
    assert(has_log(logs, id));
    let j = log_of(logs, id);
    if i != j {
        lemma_ids_differ(logs, i, j);
    }
}

/// Groups listed objects per log. Objects whose path is not that of a log object are ignored.
pub fn group_logs(listed: Vec<ListedObject>) -> (logs: Vec<GcLog>)
    ensures
        logs_in_order(logs@),
        unassessed(logs@),
        groups(logs@, listed@, listed@.len()),
{
    let mut logs: Vec<GcLog> = Vec::new();
    let mut i: usize = 0;
    while i < listed.len()
        invariant
            i <= listed@.len(),
            logs_in_order(logs@),
            unassessed(logs@),
            groups(logs@, listed@, i as nat),
        decreases listed@.len() - i,
    {
        let object = &listed[i];
        let ghost before = logs@;
        match parse_ingester_object_path(object.path.as_str()) {
            Some((ingester_id, wal_id)) => {
                let ghost key = ingester_id@;
                let gc_object = GcObject {
                    wal_id,
                    path: object.path.clone(),
                    num_bytes: object.num_bytes,
                    last_modified_nanos: object.last_modified_nanos,
                    footer: None,
                };
                let ghost one = object_models(seq![gc_object]);
                add_to_log(&mut logs, ingester_id, gc_object);
                proof {
                    let model = ObjectModel {
                        wal_id: wal_id.0,
                        path: object.path@,
                        num_bytes: object.num_bytes,
                        last_modified_nanos: object.last_modified_nanos,
                    };
                    assert(one =~= seq![model]);
                    lemma_grouping_goes_on(before, logs@, listed@, i as nat, key, one);
                }
            },
            None => {
                proof {
                    assert forall|id: Seq<char>| #[trigger] listed_of(listed@, id, (i + 1) as nat)
                        == listed_of(listed@, id, i as nat) by {}
                }
            },
        }
        i = i + 1;
    }
    logs
}

proof fn lemma_grouping_goes_on(
    before: Seq<GcLog>,
    after: Seq<GcLog>,
    listed: Seq<ListedObject>,
    n: nat,
    key: Seq<char>,
    one: Seq<ObjectModel>,
)
    requires
        n < listed.len(),
        logs_in_order(before),
        groups(before, listed, n),
        wal::ingester_object(listed[n as int].path@) matches Some((ingester, wal_id)) && ingester
            == key && one == seq![
            ObjectModel {
                wal_id,
                path: listed[n as int].path@,
                num_bytes: listed[n as int].num_bytes,
                last_modified_nanos: listed[n as int].last_modified_nanos,
            },
        ],
        forall|i: int| #![trigger after[i]]
            0 <= i < after.len() ==> ({
                let log = after[i];
                let old_objects = log_objects(before, log.ingester_id@);
                object_models(log.objects@) == if log.ingester_id@ == key {
                    old_objects + one
                } else {
                    old_objects
                }
            }),
        has_objects(after),
        forall|id: Seq<char>| #[trigger] has_log(before, id) ==> has_log(after, id),
        has_log(after, key),
    ensures
        groups(after, listed, n + 1),
{
    assert forall|i: int| 0 <= i < after.len() implies object_models(
        (#[trigger] after[i]).objects@,
    ) == listed_of(listed, after[i].ingester_id@, n + 1) && after[i].objects@.len() > 0 by {
        let id = after[i].ingester_id@;
        assert(log_objects(before, id) =~= listed_of(listed, id, n)) by {
            if has_log(before, id) {
                let j = choose|j: int|
                    0 <= j < before.len() && (#[trigger] before[j]).ingester_id@ == id;
                lemma_log_objects(before, j);
            } else {
                assert(listed_of(listed, id, n).len() == 0);
            }
        }
        if id == key {
            assert(listed_of(listed, id, n) + one =~= listed_of(listed, id, n + 1));
        }
    }
    assert forall|id: Seq<char>| #[trigger] listed_of(listed, id, n + 1).len() > 0 implies exists|
        i: int,
    | 0 <= i < after.len() && (#[trigger] after[i]).ingester_id@ == id by {
        if id != key {
            assert(listed_of(listed, id, n).len() > 0);
            assert(has_log(before, id));
        }
        assert(has_log(after, id));
    }
}

// ---- 2. Footers ----

/// What the read of a footer means for its object.
pub enum FooterAssessment {
    /// The object can be assessed.
    Known(WalFooter),
    /// Deleted since the listing, by its owner: nothing to do.
    Deleted,
    /// The object cannot be assessed and is kept.
    Skipped,
}

/// Decides what the read of a footer means for its object.
pub fn assess_footer(read: WalResult<WalFooter>) -> (assessment: FooterAssessment)
    ensures
        assessment == match read {
            Ok(footer) => FooterAssessment::Known(footer),
            Err(WalError::Storage(error)) => if error.kind == StorageErrorKind::NotFound {
                FooterAssessment::Deleted
            } else {
                FooterAssessment::Skipped
            },
            Err(_) => FooterAssessment::Skipped,
        },
        assessment == assessed(read),
{
    match read {
        Ok(footer) => FooterAssessment::Known(footer),
        Err(WalError::Storage(error)) => {
            if error.kind == StorageErrorKind::NotFound {
                FooterAssessment::Deleted
            } else {
                FooterAssessment::Skipped
            }
        },
        Err(_) => FooterAssessment::Skipped,
    }
}

/// What a block of a footer pins.
pub fn gc_block(meta: &WalBlockMeta, key: Option<QueueKey>) -> (block: GcBlock)
    requires
        meta@.positions_fit(),
    ensures
        block.key == key,
        block.last_position == if meta@.num_records == 0 {
            None
        } else {
            Some(meta@.last() as u64)
        },
        block.last_position is None <==> meta@.num_records == 0,
        block.last_position matches Some(last) ==> last == meta@.first_position
            + meta@.num_records - 1,
{
    let last_position = if meta.is_queue_marker() {
        None
    } else {
        Some(meta.last_position())
    };
    GcBlock { key, last_position }
}

// ---- 3. Publish positions ----

/// A source of an index.
#[derive(Clone, Debug, PartialEq, Eq)]
pub struct SourceKey {
    pub index_uid: String,
    pub source_id: String,
}

/// The sources of a list, each as a pair of index and source.
pub open spec fn source_pairs(sources: Seq<SourceKey>) -> Seq<(Seq<char>, Seq<char>)> {
    Seq::new(sources.len(), |i: int| (sources[i].index_uid@, sources[i].source_id@))
}

/// A list with a source added, unless it holds the source already.
pub open spec fn with_source(
    pairs: Seq<(Seq<char>, Seq<char>)>,
    pair: (Seq<char>, Seq<char>),
) -> Seq<(Seq<char>, Seq<char>)> {
    if pairs.contains(pair) {
        pairs
    } else {
        pairs.push(pair)
    }
}

/// A list with the sources of the first `n` blocks added.
pub open spec fn with_block_sources(
    pairs: Seq<(Seq<char>, Seq<char>)>,
    blocks: Seq<GcBlock>,
    n: nat,
) -> Seq<(Seq<char>, Seq<char>)>
    decreases n,
{
    if n == 0 {
        pairs
    } else {
        let before = with_block_sources(pairs, blocks, (n - 1) as nat);
        match blocks[n - 1].key {
            Some(key) => with_source(before, (key.index_uid@, key.source_id@)),
            None => before,
        }
    }
}

/// Adds the sources of the blocks of a footer to the list of sources whose shard positions have to
/// be asked for. A source is asked for once; a block whose queue id names no shard asks for none.
pub fn sources_to_ask(sources: &mut Vec<SourceKey>, footer: &GcFooter)
    requires
        source_pairs(old(sources)@).no_duplicates(),
    ensures
        source_pairs(final(sources)@) == with_block_sources(
            source_pairs(old(sources)@),
            footer.blocks@,
            footer.blocks@.len(),
        ),
        source_pairs(final(sources)@).no_duplicates(),
        forall|i: int|
            0 <= i < footer.blocks@.len() && (#[trigger] footer.blocks@[i]).key is Some
                ==> source_pairs(final(sources)@).contains(
                (
                    footer.blocks@[i].key->0.index_uid@,
                    footer.blocks@[i].key->0.source_id@,
                ),
            ),
{
    let ghost start = source_pairs(sources@);
    let mut i: usize = 0;
    while i < footer.blocks.len()
        invariant
            i <= footer.blocks@.len(),
            source_pairs(sources@) == with_block_sources(start, footer.blocks@, i as nat),
            source_pairs(sources@).no_duplicates(),
            forall|j: int|
                0 <= j < i && (#[trigger] footer.blocks@[j]).key is Some ==> source_pairs(
                    sources@,
                ).contains(
                    (
                        footer.blocks@[j].key->0.index_uid@,
                        footer.blocks@[j].key->0.source_id@,
                    ),
                ),
        decreases footer.blocks@.len() - i,
    {
        match &footer.blocks[i].key {
            Some(key) => {
                let ghost before = source_pairs(sources@);
                let ghost pair = (key.index_uid@, key.source_id@);
                if !holds_source(sources, key) {
                    sources.push(
                        SourceKey {
                            index_uid: key.index_uid.clone(),
                            source_id: key.source_id.clone(),
                        },
                    );
                    assert(source_pairs(sources@) =~= before.push(pair));
                    assert(source_pairs(sources@)[before.len() as int] == pair);
                    assert forall|j: int|
                        0 <= j < i && (#[trigger] footer.blocks@[j]).key is Some implies source_pairs(
                        sources@,
                    ).contains(
                        (
                            footer.blocks@[j].key->0.index_uid@,
                            footer.blocks@[j].key->0.source_id@,
                        ),
                    ) by {
                        let k = choose|k: int|
                            0 <= k < before.len() && before[k] == (
                                footer.blocks@[j].key->0.index_uid@,
                                footer.blocks@[j].key->0.source_id@,
                            );
                        assert(source_pairs(sources@)[k] == before[k]);
                    }
                }
            },
            None => {},
        }
        i = i + 1;
    }
}

fn holds_source(sources: &Vec<SourceKey>, key: &QueueKey) -> (holds: bool)
    ensures
        holds == source_pairs(sources@).contains((key.index_uid@, key.source_id@)),
{
    let ghost pair = (key.index_uid@, key.source_id@);
    let mut i: usize = 0;
    while i < sources.len()
        invariant
            i <= sources@.len(),
            pair == (key.index_uid@, key.source_id@),
            forall|j: int| 0 <= j < i ==> #[trigger] source_pairs(sources@)[j] != pair,
        decreases sources@.len() - i,
    {
        if same_text(sources[i].index_uid.as_str(), key.index_uid.as_str()) && same_text(
            sources[i].source_id.as_str(),
            key.source_id.as_str(),
        ) {
            assert(source_pairs(sources@)[i as int] == pair);
            return true;
        }
        i = i + 1;
    }
    false
}

/// The position up to which a shard is published.
pub struct ShardPosition {
    pub shard_id: String,
    pub position: PublishPosition,
}

/// What the metastore answers for a source.
pub enum SourceAnswer {
    /// The request failed: nothing is known of the source.
    Failed,
    /// The source or its index no longer exists.
    Gone,
    /// The publish positions of its shards. Shards missing from the list are gone.
    Shards(Vec<ShardPosition>),
}

/// A source with what the metastore answers for it.
pub struct SourceStatus {
    pub source: SourceKey,
    pub answer: SourceAnswer,
}

/// The publish position of a shard among the first `n` of a list.
pub open spec fn position_of(shards: Seq<ShardPosition>, shard_id: Seq<char>, n: nat) -> Option<
    PublishPosition,
>
    decreases n,
{
    if n == 0 {
        None
    } else {
        match position_of(shards, shard_id, (n - 1) as nat) {
            Some(position) => Some(position),
            None => if shards[n - 1].shard_id@ == shard_id {
                Some(shards[n - 1].position)
            } else {
                None
            },
        }
    }
}

/// The answer for a source among the first `n` of a list.
pub open spec fn answer_of(
    sources: Seq<SourceStatus>,
    index_uid: Seq<char>,
    source_id: Seq<char>,
    n: nat,
) -> Option<SourceAnswer>
    decreases n,
{
    if n == 0 {
        None
    } else {
        match answer_of(sources, index_uid, source_id, (n - 1) as nat) {
            Some(answer) => Some(answer),
            None => if sources[n - 1].source.index_uid@ == index_uid
                && sources[n - 1].source.source_id@ == source_id {
                Some(sources[n - 1].answer)
            } else {
                None
            },
        }
    }
}

/// Where a shard stands: unknown for a queue id that names no shard, and for a source that was
/// not asked for or could not be asked.
pub open spec fn status_of(sources: Seq<SourceStatus>, key: Option<QueueKey>) -> Option<
    ShardPublishStatus,
> {
    match key {
        None => None,
        Some(key) => match answer_of(sources, key.index_uid@, key.source_id@, sources.len()) {
            None => None,
            Some(SourceAnswer::Failed) => None,
            Some(SourceAnswer::Gone) => Some(ShardPublishStatus::Gone),
            Some(SourceAnswer::Shards(shards)) => match position_of(
                shards@,
                key.shard_id@,
                shards@.len(),
            ) {
                None => Some(ShardPublishStatus::Gone),
                Some(position) => Some(ShardPublishStatus::Published(position)),
            },
        },
    }
}

proof fn lemma_position_stays(shards: Seq<ShardPosition>, shard_id: Seq<char>, i: nat, n: nat)
    requires
        i <= n,
        position_of(shards, shard_id, i) is Some,
    ensures
        position_of(shards, shard_id, n) == position_of(shards, shard_id, i),
    decreases n - i,
{
    if i < n {
        lemma_position_stays(shards, shard_id, i, (n - 1) as nat);
    }
}

proof fn lemma_answer_stays(
    sources: Seq<SourceStatus>,
    index_uid: Seq<char>,
    source_id: Seq<char>,
    i: nat,
    n: nat,
)
    requires
        i <= n,
        answer_of(sources, index_uid, source_id, i) is Some,
    ensures
        answer_of(sources, index_uid, source_id, n) == answer_of(sources, index_uid, source_id, i),
    decreases n - i,
{
    if i < n {
        lemma_answer_stays(sources, index_uid, source_id, i, (n - 1) as nat);
    }
}

fn shard_position(shards: &Vec<ShardPosition>, shard_id: &str) -> (position: Option<
    PublishPosition,
>)
    ensures
        position == position_of(shards@, shard_id@, shards@.len()),
{
    let mut i: usize = 0;
    while i < shards.len()
        invariant
            i <= shards@.len(),
            position_of(shards@, shard_id@, i as nat) is None,
        decreases shards@.len() - i,
    {
        if same_text(shards[i].shard_id.as_str(), shard_id) {
            proof {
                lemma_position_stays(shards@, shard_id@, (i + 1) as nat, shards@.len());
            }
            return Some(shards[i].position);
        }
        i = i + 1;
    }
    None
}

/// Where a shard stands.
pub fn shard_status(sources: &Vec<SourceStatus>, key: &Option<QueueKey>) -> (status: Option<
    ShardPublishStatus,
>)
    ensures
        status == status_of(sources@, *key),
{
    match key {
        None => None,
        Some(shard) => {
            let mut i: usize = 0;
            while i < sources.len()
                invariant
                    i <= sources@.len(),
                    *key == Some(*shard),
                    answer_of(sources@, shard.index_uid@, shard.source_id@, i as nat) is None,
                decreases sources@.len() - i,
            {
                if same_text(sources[i].source.index_uid.as_str(), shard.index_uid.as_str())
                    && same_text(sources[i].source.source_id.as_str(), shard.source_id.as_str()) {
                    proof {
                        lemma_answer_stays(
                            sources@,
                            shard.index_uid@,
                            shard.source_id@,
                            (i + 1) as nat,
                            sources@.len(),
                        );
                    }
                    return match &sources[i].answer {
                        SourceAnswer::Failed => None,
                        SourceAnswer::Gone => Some(ShardPublishStatus::Gone),
                        SourceAnswer::Shards(shards) => match shard_position(
                            shards,
                            shard.shard_id.as_str(),
                        ) {
                            None => Some(ShardPublishStatus::Gone),
                            Some(position) => Some(ShardPublishStatus::Published(position)),
                        },
                    };
                }
                i = i + 1;
            }
            None
        },
    }
}

// ---- 4. Decision ----

/// What becomes of an object.
#[derive(Clone, Copy, Debug, PartialEq, Eq, Structural)]
pub enum Verdict {
    Keep,
    Delete,
    /// Kept because a shard of it could not be assessed.
    Skip,
}

/// Whether an object is a fence that was read.
pub open spec fn is_fence(object: GcObject) -> bool {
    object.footer matches Some(footer) && footer.is_fence
}

/// The id of the newest fence among the first `n` objects of a log.
pub open spec fn newest_fence(objects: Seq<GcObject>, n: nat) -> Option<u64>
    decreases n,
{
    if n == 0 {
        None
    } else {
        let before = newest_fence(objects, (n - 1) as nat);
        if is_fence(objects[n - 1]) {
            match before {
                Some(id) => if id >= objects[n - 1].wal_id.0 {
                    Some(id)
                } else {
                    Some(objects[n - 1].wal_id.0)
                },
                None => Some(objects[n - 1].wal_id.0),
            }
        } else {
            before
        }
    }
}

/// Whether the records of a block are published, or its shard is gone.
pub open spec fn block_covered(sources: Seq<SourceStatus>, block: GcBlock) -> bool {
    status_of(sources, block.key) matches Some(status) && status.covers_position(
        block.last_position,
    )
}

/// What becomes of an object with blocks: the first block that is not covered decides.
pub open spec fn blocks_verdict(
    sources: Seq<SourceStatus>,
    blocks: Seq<GcBlock>,
    from: nat,
) -> Verdict
    decreases blocks.len() - from,
{
    if from >= blocks.len() {
        Verdict::Delete
    } else if block_covered(sources, blocks[from as int]) {
        blocks_verdict(sources, blocks, from + 1)
    } else if status_of(sources, blocks[from as int].key) is None {
        Verdict::Skip
    } else {
        Verdict::Keep
    }
}

/// How old an object is, in nanoseconds. One from the future has no age.
pub open spec fn age_nanos(object: GcObject, now_nanos: u128) -> int {
    if now_nanos >= object.last_modified_nanos {
        now_nanos - object.last_modified_nanos
    } else {
        0
    }
}

/// What becomes of an object.
pub open spec fn object_verdict(
    object: GcObject,
    newest_fence: Option<u64>,
    sources: Seq<SourceStatus>,
    params: IngestWalGcParams,
    now_nanos: u128,
) -> Verdict {
    match object.footer {
        None => Verdict::Keep,
        Some(footer) => if age_nanos(object, now_nanos) < params.min_age_nanos {
            Verdict::Keep
        } else if footer.is_fence {
            if newest_fence == Some(object.wal_id.0) {
                Verdict::Keep
            } else {
                Verdict::Delete
            }
        } else {
            blocks_verdict(sources, footer.blocks@, 0)
        },
    }
}

fn newest_fence_id(objects: &Vec<GcObject>) -> (newest: Option<u64>)
    ensures
        newest == newest_fence(objects@, objects@.len()),
{
    let mut newest: Option<u64> = None;
    let mut i: usize = 0;
    while i < objects.len()
        invariant
            i <= objects@.len(),
            newest == newest_fence(objects@, i as nat),
        decreases objects@.len() - i,
    {
        let fence = match &objects[i].footer {
            Some(footer) => footer.is_fence,
            None => false,
        };
        if fence {
            let id: u64 = objects[i].wal_id.0;
            newest = match newest {
                Some(other) => if other >= id {
                    Some(other)
                } else {
                    Some(id)
                },
                None => Some(id),
            };
        }
        i = i + 1;
    }
    newest
}

fn judge_blocks(sources: &Vec<SourceStatus>, blocks: &Vec<GcBlock>) -> (verdict: Verdict)
    ensures
        verdict == blocks_verdict(sources@, blocks@, 0),
{
    let mut i: usize = 0;
    while i < blocks.len()
        invariant
            i <= blocks@.len(),
            blocks_verdict(sources@, blocks@, 0) == blocks_verdict(sources@, blocks@, i as nat),
        decreases blocks@.len() - i,
    {
        match shard_status(sources, &blocks[i].key) {
            None => {
                return Verdict::Skip;
            },
            Some(status) => {
                if !status.covers(blocks[i].last_position) {
                    return Verdict::Keep;
                }
            },
        }
        i = i + 1;
    }
    Verdict::Delete
}

/// Decides what becomes of an object.
pub fn judge_object(
    object: &GcObject,
    newest_fence: Option<u64>,
    sources: &Vec<SourceStatus>,
    params: &IngestWalGcParams,
    now_nanos: u128,
) -> (verdict: Verdict)
    ensures
        verdict == object_verdict(*object, newest_fence, sources@, *params, now_nanos),
{
    match &object.footer {
        None => Verdict::Keep,
        Some(footer) => {
            let age: u128 = if now_nanos >= object.last_modified_nanos {
                now_nanos - object.last_modified_nanos
            } else {
                0
            };
            if age < params.min_age_nanos {
                return Verdict::Keep;
            }
            if footer.is_fence {
                return match newest_fence {
                    Some(id) => if id == object.wal_id.0 {
                        Verdict::Keep
                    } else {
                        Verdict::Delete
                    },
                    None => Verdict::Delete,
                };
            }
            judge_blocks(sources, &footer.blocks)
        },
    }
}

/// An object to delete.
pub struct Deletion {
    pub path: String,
    pub num_bytes: u64,
}

/// The paths and sizes of a list of deletions.
pub open spec fn deletion_pairs(deletions: Seq<Deletion>) -> Seq<(Seq<char>, u64)> {
    Seq::new(deletions.len(), |i: int| (deletions[i].path@, deletions[i].num_bytes))
}

/// What becomes of the `i`th object of a log.
pub open spec fn verdict_in_log(
    objects: Seq<GcObject>,
    sources: Seq<SourceStatus>,
    params: IngestWalGcParams,
    now_nanos: u128,
    i: int,
) -> Verdict {
    object_verdict(
        objects[i],
        newest_fence(objects, objects.len()),
        sources,
        params,
        now_nanos,
    )
}

/// The objects to delete among the first `n` of a log.
pub open spec fn log_deletions(
    objects: Seq<GcObject>,
    sources: Seq<SourceStatus>,
    params: IngestWalGcParams,
    now_nanos: u128,
    n: nat,
) -> Seq<(Seq<char>, u64)>
    decreases n,
{
    if n == 0 {
        seq![]
    } else {
        let before = log_deletions(objects, sources, params, now_nanos, (n - 1) as nat);
        if verdict_in_log(objects, sources, params, now_nanos, n - 1) == Verdict::Delete {
            before.push((objects[n - 1].path@, objects[n - 1].num_bytes))
        } else {
            before
        }
    }
}

/// How many of the first `n` objects of a log could not be assessed for want of a shard position.
pub open spec fn log_skips(
    objects: Seq<GcObject>,
    sources: Seq<SourceStatus>,
    params: IngestWalGcParams,
    now_nanos: u128,
    n: nat,
) -> nat
    decreases n,
{
    if n == 0 {
        0
    } else {
        log_skips(objects, sources, params, now_nanos, (n - 1) as nat) + if verdict_in_log(
            objects,
            sources,
            params,
            now_nanos,
            n - 1,
        ) == Verdict::Skip {
            1nat
        } else {
            0nat
        }
    }
}

/// The objects to delete in the first `n` logs, log by log.
pub open spec fn pass_deletions(
    logs: Seq<GcLog>,
    sources: Seq<SourceStatus>,
    params: IngestWalGcParams,
    now_nanos: u128,
    n: nat,
) -> Seq<(Seq<char>, u64)>
    decreases n,
{
    if n == 0 {
        seq![]
    } else {
        pass_deletions(logs, sources, params, now_nanos, (n - 1) as nat) + log_deletions(
            logs[n - 1].objects@,
            sources,
            params,
            now_nanos,
            logs[n - 1].objects@.len(),
        )
    }
}

/// How many objects of the first `n` logs could not be assessed for want of a shard position.
pub open spec fn pass_skips(
    logs: Seq<GcLog>,
    sources: Seq<SourceStatus>,
    params: IngestWalGcParams,
    now_nanos: u128,
    n: nat,
) -> nat
    decreases n,
{
    if n == 0 {
        0
    } else {
        pass_skips(logs, sources, params, now_nanos, (n - 1) as nat) + log_skips(
            logs[n - 1].objects@,
            sources,
            params,
            now_nanos,
            logs[n - 1].objects@.len(),
        )
    }
}

/// How many objects the first `n` logs hold.
pub open spec fn object_count(logs: Seq<GcLog>, n: nat) -> nat
    decreases n,
{
    if n == 0 {
        0
    } else {
        object_count(logs, (n - 1) as nat) + logs[n - 1].objects@.len()
    }
}

proof fn lemma_object_count_grows(logs: Seq<GcLog>, i: nat, n: nat)
    requires
        i <= n,
    ensures
        object_count(logs, i) <= object_count(logs, n),
    decreases n - i,
{
    if i < n {
        lemma_object_count_grows(logs, i, (n - 1) as nat);
    }
}

/// What a pass decides.
pub struct GcPlan {
    pub deletions: Vec<Deletion>,
    pub report: IngestWalGcReport,
}

fn plan_log(
    deletions: &mut Vec<Deletion>,
    objects: &Vec<GcObject>,
    sources: &Vec<SourceStatus>,
    params: &IngestWalGcParams,
    now_nanos: u128,
) -> (num_skipped: usize)
    ensures
        deletion_pairs(final(deletions)@) == deletion_pairs(old(deletions)@) + log_deletions(
            objects@,
            sources@,
            *params,
            now_nanos,
            objects@.len(),
        ),
        num_skipped == log_skips(objects@, sources@, *params, now_nanos, objects@.len()),
        num_skipped <= objects@.len(),
{
    let newest = newest_fence_id(objects);
    let ghost before = deletion_pairs(deletions@);
    let mut num_skipped: usize = 0;
    let mut i: usize = 0;
    assert(before + Seq::<(Seq<char>, u64)>::empty() =~= before);
    while i < objects.len()
        invariant
            i <= objects@.len(),
            newest == newest_fence(objects@, objects@.len()),
            deletion_pairs(deletions@) == before + log_deletions(
                objects@,
                sources@,
                *params,
                now_nanos,
                i as nat,
            ),
            num_skipped == log_skips(objects@, sources@, *params, now_nanos, i as nat),
            num_skipped <= i,
        decreases objects@.len() - i,
    {
        let ghost so_far = deletion_pairs(deletions@);
        let object = &objects[i];
        match judge_object(object, newest, sources, params, now_nanos) {
            Verdict::Delete => {
                deletions.push(
                    Deletion { path: object.path.clone(), num_bytes: object.num_bytes },
                );
                assert(deletion_pairs(deletions@) =~= so_far.push(
                    (object.path@, object.num_bytes),
                ));
                assert(deletion_pairs(deletions@) =~= before + log_deletions(
                    objects@,
                    sources@,
                    *params,
                    now_nanos,
                    (i + 1) as nat,
                ));
            },
            Verdict::Skip => {
                num_skipped = num_skipped + 1;
            },
            Verdict::Keep => {},
        }
        i = i + 1;
    }
    num_skipped
}

/// Decides which objects a pass deletes. `num_unread` objects could not be assessed because their
/// footer could not be read.
pub fn plan_pass(
    logs: &Vec<GcLog>,
    sources: &Vec<SourceStatus>,
    params: &IngestWalGcParams,
    now_nanos: u128,
    num_unread: usize,
) -> (plan: GcPlan)
    requires
        object_count(logs@, logs@.len()) + num_unread <= usize::MAX,
    ensures
        deletion_pairs(plan.deletions@) == pass_deletions(
            logs@,
            sources@,
            *params,
            now_nanos,
            logs@.len(),
        ),
        plan.report == (IngestWalGcReport {
            num_logs: logs@.len() as usize,
            num_objects: object_count(logs@, logs@.len()) as usize,
            num_deleted_objects: 0,
            num_deleted_bytes: 0,
            num_skipped_objects: (num_unread + pass_skips(
                logs@,
                sources@,
                *params,
                now_nanos,
                logs@.len(),
            )) as usize,
            num_failed_deletions: 0,
        }),
{
    let mut deletions: Vec<Deletion> = Vec::new();
    let mut num_objects: usize = 0;
    let mut num_skipped: usize = num_unread;
    let mut i: usize = 0;
    assert(deletion_pairs(deletions@) =~= seq![]);
    while i < logs.len()
        invariant
            i <= logs@.len(),
            object_count(logs@, logs@.len()) + num_unread <= usize::MAX,
            num_objects == object_count(logs@, i as nat),
            num_skipped == num_unread + pass_skips(logs@, sources@, *params, now_nanos, i as nat),
            num_skipped <= num_unread + num_objects,
            deletion_pairs(deletions@) == pass_deletions(
                logs@,
                sources@,
                *params,
                now_nanos,
                i as nat,
            ),
        decreases logs@.len() - i,
    {
        proof {
            lemma_object_count_grows(logs@, (i + 1) as nat, logs@.len());
        }
        let skipped: usize = plan_log(&mut deletions, &logs[i].objects, sources, params, now_nanos);
        num_objects = num_objects + logs[i].objects.len();
        num_skipped = num_skipped + skipped;
        i = i + 1;
    }
    GcPlan {
        deletions,
        report: IngestWalGcReport {
            num_logs: logs.len(),
            num_objects,
            num_deleted_objects: 0,
            num_deleted_bytes: 0,
            num_skipped_objects: num_skipped,
            num_failed_deletions: 0,
        },
    }
}

/// The paths that a pass hands to the storage for deletion: those of its deletions, and none in a
/// dry run.
pub open spec fn handed_paths(
    pairs: Seq<(Seq<char>, u64)>,
    params: IngestWalGcParams,
) -> Seq<Seq<char>> {
    if params.dry_run {
        seq![]
    } else {
        Seq::new(pairs.len(), |i: int| pairs[i].0)
    }
}

/// The paths that the storage is to delete. There are none in a dry run.
pub fn paths_to_delete(plan: &GcPlan, params: &IngestWalGcParams) -> (paths: Vec<String>)
    ensures
        crate::path::texts(paths@) == handed_paths(deletion_pairs(plan.deletions@), *params),
{
    let mut paths: Vec<String> = Vec::new();
    if params.dry_run {
        assert(crate::path::texts(paths@) =~= seq![]);
        return paths;
    }
    for i in 0..plan.deletions.len()
        invariant
            paths@.len() == i,
            forall|j: int| 0 <= j < i ==> #[trigger] paths@[j]@ == plan.deletions@[j].path@,
    {
        paths.push(plan.deletions[i].path.clone());
    }
    assert(crate::path::texts(paths@) =~= handed_paths(
        deletion_pairs(plan.deletions@),
        *params,
    ));
    paths
}

/// What came of the deletions of a pass.
pub enum DeletionOutcome {
    /// Nothing was deleted: the pass is a dry run.
    DryRun,
    /// Everything was deleted.
    Deleted,
    /// These paths failed, or were not attempted.
    Failed(Vec<String>),
}

/// What came of the deletions of a pass, from the answer of the storage to the paths that it was
/// handed.
pub open spec fn outcome_of(
    params: IngestWalGcParams,
    answer: Result<(), Vec<String>>,
) -> DeletionOutcome {
    match (params.dry_run, answer) {
        (true, _) => DeletionOutcome::DryRun,
        (false, Ok(())) => DeletionOutcome::Deleted,
        (false, Err(failed)) => DeletionOutcome::Failed(failed),
    }
}

/// What came of the deletions of a pass. An error of the storage holds the paths that failed, or
/// were not attempted.
pub fn pass_outcome(params: &IngestWalGcParams, answer: Result<(), Vec<String>>) -> (outcome:
    DeletionOutcome)
    ensures
        outcome == outcome_of(*params, answer),
{
    if params.dry_run {
        return DeletionOutcome::DryRun;
    }
    match answer {
        Ok(()) => DeletionOutcome::Deleted,
        Err(failed) => DeletionOutcome::Failed(failed),
    }
}

/// Whether a path was deleted, or would have been in a dry run.
pub open spec fn counts_as_deleted(outcome: DeletionOutcome, path: Seq<char>) -> bool {
    match outcome {
        DeletionOutcome::Failed(failed) => !crate::path::texts(failed@).contains(path),
        _ => true,
    }
}

/// How many of the first `n` deletions succeeded.
pub open spec fn deleted_count(
    pairs: Seq<(Seq<char>, u64)>,
    outcome: DeletionOutcome,
    n: nat,
) -> nat
    decreases n,
{
    if n == 0 {
        0
    } else {
        deleted_count(pairs, outcome, (n - 1) as nat) + if counts_as_deleted(
            outcome,
            pairs[n - 1].0,
        ) {
            1nat
        } else {
            0nat
        }
    }
}

/// The bytes of the first `n` deletions that succeeded.
pub open spec fn deleted_bytes(
    pairs: Seq<(Seq<char>, u64)>,
    outcome: DeletionOutcome,
    n: nat,
) -> nat
    decreases n,
{
    if n == 0 {
        0
    } else {
        deleted_bytes(pairs, outcome, (n - 1) as nat) + if counts_as_deleted(
            outcome,
            pairs[n - 1].0,
        ) {
            pairs[n - 1].1 as nat
        } else {
            0nat
        }
    }
}

/// The paths that are gone from the storage among the first `n` deletions.
pub open spec fn gone_paths(
    pairs: Seq<(Seq<char>, u64)>,
    outcome: DeletionOutcome,
    n: nat,
) -> Seq<Seq<char>>
    decreases n,
{
    if n == 0 {
        seq![]
    } else {
        let before = gone_paths(pairs, outcome, (n - 1) as nat);
        if !(outcome is DryRun) && counts_as_deleted(outcome, pairs[n - 1].0) {
            before.push(pairs[n - 1].0)
        } else {
            before
        }
    }
}

fn deleted(outcome: &DeletionOutcome, path: &str) -> (counts: bool)
    ensures
        counts == counts_as_deleted(*outcome, path@),
{
    match outcome {
        DeletionOutcome::Failed(failed) => {
            let mut i: usize = 0;
            while i < failed.len()
                invariant
                    i <= failed@.len(),
                    *outcome == DeletionOutcome::Failed(*failed),
                    forall|j: int|
                        0 <= j < i ==> #[trigger] crate::path::texts(failed@)[j] != path@,
                decreases failed@.len() - i,
            {
                if same_text(failed[i].as_str(), path) {
                    assert(crate::path::texts(failed@)[i as int] == path@);
                    return false;
                }
                i = i + 1;
            }
            true
        },
        _ => true,
    }
}

proof fn lemma_deleted_bytes_grow(
    pairs: Seq<(Seq<char>, u64)>,
    outcome: DeletionOutcome,
    i: nat,
    n: nat,
)
    requires
        i <= n,
    ensures
        deleted_bytes(pairs, outcome, i) <= deleted_bytes(pairs, outcome, n),
    decreases n - i,
{
    if i < n {
        lemma_deleted_bytes_grow(pairs, outcome, i, (n - 1) as nat);
    }
}

/// Whether a path is among the objects of the listing.
pub open spec fn is_listed(logs: Seq<GcLog>, path: Seq<char>) -> bool {
    exists|i: int, j: int|
        0 <= i < logs.len() && 0 <= j < logs[i].objects@.len() && (
        #[trigger] logs[i].objects@[j]).path@ == path
}

/// Those of the first `n` paths that are not listed any more.
pub open spec fn unlisted_paths(cached: Seq<Seq<char>>, logs: Seq<GcLog>, n: nat) -> Seq<Seq<char>>
    decreases n,
{
    if n == 0 {
        seq![]
    } else {
        let before = unlisted_paths(cached, logs, (n - 1) as nat);
        if is_listed(logs, cached[n - 1]) {
            before
        } else {
            before.push(cached[n - 1])
        }
    }
}

fn listed_paths(logs: &Vec<GcLog>) -> (paths: TextMap<()>)
    ensures
        paths.well_formed(),
        forall|path: Seq<char>| #[trigger]
            paths@.contains_key(path) == is_listed(logs@, path),
{
    let mut paths: TextMap<()> = TextMap::new();
    let mut i: usize = 0;
    while i < logs.len()
        invariant
            i <= logs@.len(),
            paths.well_formed(),
            forall|path: Seq<char>| #[trigger]
                paths@.contains_key(path) == is_listed(logs@.take(i as int), path),
        decreases logs@.len() - i,
    {
        let objects = &logs[i].objects;
        let ghost done = logs@.take(i as int);
        let ghost next = logs@.take(i + 1);
        let mut j: usize = 0;
        while j < objects.len()
            invariant
                j <= objects@.len(),
                paths.well_formed(),
                forall|path: Seq<char>| #[trigger]
                    paths@.contains_key(path) == (is_listed(done, path) || exists|k: int|
                        0 <= k < j && (#[trigger] objects@[k]).path@ == path),
            decreases objects@.len() - j,
        {
            let ghost before = paths@;
            paths.insert(objects[j].path.as_str(), ());
            assert forall|path: Seq<char>| #[trigger] paths@.contains_key(path) == (is_listed(
                done,
                path,
            ) || exists|k: int| 0 <= k < j + 1 && (#[trigger] objects@[k]).path@ == path) by {
                assert(paths@.contains_key(path) == (before.contains_key(path) || path
                    == objects@[j as int].path@));
            }
            j = j + 1;
        }
        assert forall|path: Seq<char>| #[trigger] paths@.contains_key(path) == is_listed(
            next,
            path,
        ) by {
            if is_listed(done, path) {
                let (a, b) = choose|a: int, b: int|
                    0 <= a < done.len() && 0 <= b < done[a].objects@.len() && (
                    #[trigger] done[a].objects@[b]).path@ == path;
                assert(next[a].objects@[b].path@ == path);
            }
            if exists|k: int| 0 <= k < j && (#[trigger] objects@[k]).path@ == path {
                let k = choose|k: int| 0 <= k < j && (#[trigger] objects@[k]).path@ == path;
                assert(next[i as int].objects@[k].path@ == path);
            }
            if is_listed(next, path) {
                let (a, b) = choose|a: int, b: int|
                    0 <= a < next.len() && 0 <= b < next[a].objects@.len() && (
                    #[trigger] next[a].objects@[b]).path@ == path;
                if a < i {
                    assert(done[a].objects@[b].path@ == path);
                } else {
                    assert(objects@[b].path@ == path);
                }
            }
        }
        i = i + 1;
    }
    assert(logs@.take(i as int) =~= logs@);
    paths
}

/// Completes the report of a pass, and returns it with the paths that the footer cache drops: those
/// that this pass deleted, and those of its `cached` ones that are not listed any more, because
/// their owner deleted them. A dry run reports what would be deleted, and deletes nothing.
pub fn finish_pass(
    plan: &GcPlan,
    outcome: &DeletionOutcome,
    logs: &Vec<GcLog>,
    cached: &Vec<String>,
) -> (finished: (IngestWalGcReport, Vec<String>))
    requires
        deleted_bytes(deletion_pairs(plan.deletions@), *outcome, plan.deletions@.len()) <= u64::MAX,
    ensures
        finished.0 == (IngestWalGcReport {
            num_deleted_objects: deleted_count(
                deletion_pairs(plan.deletions@),
                *outcome,
                plan.deletions@.len(),
            ) as usize,
            num_deleted_bytes: deleted_bytes(
                deletion_pairs(plan.deletions@),
                *outcome,
                plan.deletions@.len(),
            ) as u64,
            num_failed_deletions: (plan.deletions@.len() - deleted_count(
                deletion_pairs(plan.deletions@),
                *outcome,
                plan.deletions@.len(),
            )) as usize,
            ..plan.report
        }),
        crate::path::texts(finished.1@) == gone_paths(
            deletion_pairs(plan.deletions@),
            *outcome,
            plan.deletions@.len(),
        ) + unlisted_paths(crate::path::texts(cached@), logs@, cached@.len()),
{
    let ghost pairs = deletion_pairs(plan.deletions@);
    let dry_run = matches!(outcome, DeletionOutcome::DryRun);
    let mut gone: Vec<String> = Vec::new();
    let mut num_deleted: usize = 0;
    let mut num_bytes: u64 = 0;
    let mut i: usize = 0;
    assert(crate::path::texts(gone@) =~= seq![]);
    while i < plan.deletions.len()
        invariant
            i <= plan.deletions@.len(),
            pairs == deletion_pairs(plan.deletions@),
            dry_run == (outcome is DryRun),
            deleted_bytes(pairs, *outcome, plan.deletions@.len()) <= u64::MAX,
            num_deleted == deleted_count(pairs, *outcome, i as nat),
            num_deleted <= i,
            num_bytes == deleted_bytes(pairs, *outcome, i as nat),
            crate::path::texts(gone@) == gone_paths(pairs, *outcome, i as nat),
        decreases plan.deletions@.len() - i,
    {
        let deletion = &plan.deletions[i];
        proof {
            assert(pairs[i as int] == (deletion.path@, deletion.num_bytes));
            lemma_deleted_bytes_grow(pairs, *outcome, (i + 1) as nat, plan.deletions@.len());
        }
        if deleted(outcome, deletion.path.as_str()) {
            num_deleted = num_deleted + 1;
            num_bytes = num_bytes + deletion.num_bytes;
            if !dry_run {
                let ghost before = crate::path::texts(gone@);
                gone.push(deletion.path.clone());
                assert(crate::path::texts(gone@) =~= before.push(deletion.path@));
            }
        }
        i = i + 1;
    }
    let report = IngestWalGcReport {
        num_logs: plan.report.num_logs,
        num_objects: plan.report.num_objects,
        num_deleted_objects: num_deleted,
        num_deleted_bytes: num_bytes,
        num_skipped_objects: plan.report.num_skipped_objects,
        num_failed_deletions: plan.deletions.len() - num_deleted,
    };
    let ghost deleted_paths = crate::path::texts(gone@);
    let ghost names = crate::path::texts(cached@);
    let listed = listed_paths(logs);
    let mut i: usize = 0;
    assert(deleted_paths + Seq::<Seq<char>>::empty() =~= deleted_paths);
    while i < cached.len()
        invariant
            i <= cached@.len(),
            names == crate::path::texts(cached@),
            listed.well_formed(),
            forall|path: Seq<char>| #[trigger]
                listed@.contains_key(path) == is_listed(logs@, path),
            crate::path::texts(gone@) == deleted_paths + unlisted_paths(names, logs@, i as nat),
        decreases cached@.len() - i,
    {
        let ghost before = crate::path::texts(gone@);
        assert(names[i as int] == cached@[i as int]@);
        if !listed.contains(cached[i].as_str()) {
            gone.push(cached[i].clone());
            assert(crate::path::texts(gone@) =~= before.push(names[i as int]));
            assert(crate::path::texts(gone@) =~= deleted_paths + unlisted_paths(
                names,
                logs@,
                (i + 1) as nat,
            ));
        }
        i = i + 1;
    }
    (report, gone)
}

// ---- Laws ----

/// The newest fence of a log is never deleted, so the log never forgets its epoch.
pub proof fn newest_fence_is_kept(
    objects: Seq<GcObject>,
    sources: Seq<SourceStatus>,
    params: IngestWalGcParams,
    now_nanos: u128,
    i: int,
)
    requires
        0 <= i < objects.len(),
        is_fence(objects[i]),
        forall|j: int|
            0 <= j < objects.len() && is_fence(#[trigger] objects[j]) ==> objects[j].wal_id.0
                <= objects[i].wal_id.0,
    ensures
        verdict_in_log(objects, sources, params, now_nanos, i) == Verdict::Keep,
{
    lemma_newest_fence_bounds(objects, objects.len());
}

proof fn lemma_newest_fence_bounds(objects: Seq<GcObject>, n: nat)
    requires
        n <= objects.len(),
    ensures
        newest_fence(objects, n) matches Some(id) ==> exists|j: int|
            0 <= j < n && is_fence(#[trigger] objects[j]) && objects[j].wal_id.0 == id,
        forall|j: int|
            0 <= j < n && is_fence(#[trigger] objects[j]) ==> newest_fence(objects, n) is Some
                && objects[j].wal_id.0 <= newest_fence(objects, n)->0,
    decreases n,
{
    if n > 0 {
        lemma_newest_fence_bounds(objects, (n - 1) as nat);
        if is_fence(objects[n - 1]) {
            assert(is_fence(objects[n - 1]) && objects[n - 1].wal_id.0 == objects[n - 1].wal_id.0);
        }
    }
}

/// What is needed no more: everything of a shard that is gone, every record of one that was read to
/// its end, and the records of another up to the offset it is published up to. A queue marker is
/// needed until the shard is gone.
pub proof fn published_records_are_covered(status: ShardPublishStatus, last: u64)
    ensures
        status is Gone ==> status.covers_position(Some(last)) && status.covers_position(None),
        status is Published ==> !status.covers_position(None),
        status matches ShardPublishStatus::Published(PublishPosition::At(Position::Eof(_)))
            ==> status.covers_position(Some(last)),
        status matches ShardPublishStatus::Published(PublishPosition::At(Position::Offset(offset)))
            ==> (status.covers_position(Some(last)) <==> last <= offset),
        status == ShardPublishStatus::Published(PublishPosition::At(Position::Beginning))
            ==> !status.covers_position(Some(last)),
        status == ShardPublishStatus::Published(PublishPosition::NotANumber)
            ==> !status.covers_position(Some(last)),
{
}

/// A log has the objects whose paths name it, with the id that the path names, and with the path, the
/// size and the time of the listing. It has no others.
pub proof fn logs_have_the_objects_that_name_them(
    listed: Seq<ListedObject>,
    ingester_id: Seq<char>,
    n: nat,
    object: ObjectModel,
)
    requires
        n <= listed.len(),
    ensures
        listed_of(listed, ingester_id, n).contains(object) <==> exists|i: int|
            0 <= i < n && wal::ingester_object((#[trigger] listed[i]).path@) == Some(
                (ingester_id, object.wal_id),
            ) && listed[i].path@ == object.path && listed[i].num_bytes == object.num_bytes
                && listed[i].last_modified_nanos == object.last_modified_nanos,
    decreases n,
{
    let all = listed_of(listed, ingester_id, n);
    if n == 0 {
        assert(!all.contains(object));
    } else {
        let before = listed_of(listed, ingester_id, (n - 1) as nat);
        let last = listed[n - 1];
        logs_have_the_objects_that_name_them(listed, ingester_id, (n - 1) as nat, object);
        if all.contains(object) {
            let k = choose|k: int| 0 <= k < all.len() && all[k] == object;
            if k < before.len() {
                assert(before[k] == object);
            } else {
                assert(listed[n - 1].path@ == object.path);
            }
        }
        if exists|i: int|
            0 <= i < n && wal::ingester_object((#[trigger] listed[i]).path@) == Some(
                (ingester_id, object.wal_id),
            ) && listed[i].path@ == object.path && listed[i].num_bytes == object.num_bytes
                && listed[i].last_modified_nanos == object.last_modified_nanos {
            let i = choose|i: int|
                0 <= i < n && wal::ingester_object((#[trigger] listed[i]).path@) == Some(
                    (ingester_id, object.wal_id),
                ) && listed[i].path@ == object.path && listed[i].num_bytes == object.num_bytes
                    && listed[i].last_modified_nanos == object.last_modified_nanos;
            if i < n - 1 {
                let k = choose|k: int| 0 <= k < before.len() && before[k] == object;
                assert(all[k] == object);
            } else {
                assert(all[all.len() - 1] == object);
            }
        }
    }
}

/// Objects are modelled one by one.
pub proof fn objects_are_modelled_one_by_one(objects: Seq<GcObject>, i: int)
    requires
        0 <= i < objects.len(),
    ensures
        object_models(objects).len() == objects.len(),
        object_models(objects)[i].wal_id == objects[i].wal_id.0,
        object_models(objects)[i].path == objects[i].path@,
        object_models(objects)[i].num_bytes == objects[i].num_bytes,
        object_models(objects)[i].last_modified_nanos == objects[i].last_modified_nanos,
{
}

/// Every listed object is in the log that its path names, as it was listed.
pub proof fn every_listed_object_is_grouped(
    logs: Seq<GcLog>,
    listed: Seq<ListedObject>,
    i: int,
    ingester_id: Seq<char>,
    wal_id: u64,
)
    requires
        groups(logs, listed, listed.len()),
        0 <= i < listed.len(),
        wal::ingester_object(listed[i].path@) == Some((ingester_id, wal_id)),
    ensures
        exists|l: int, o: int|
            0 <= l < logs.len() && logs[l].ingester_id@ == ingester_id && 0 <= o
                < logs[l].objects@.len() && (#[trigger] logs[l].objects@[o]).wal_id.0 == wal_id
                && logs[l].objects@[o].path@ == listed[i].path@ && logs[l].objects@[o].num_bytes
                == listed[i].num_bytes && logs[l].objects@[o].last_modified_nanos
                == listed[i].last_modified_nanos,
{
    let object = ObjectModel {
        wal_id,
        path: listed[i].path@,
        num_bytes: listed[i].num_bytes,
        last_modified_nanos: listed[i].last_modified_nanos,
    };
    logs_have_the_objects_that_name_them(listed, ingester_id, listed.len(), object);
    assert(listed[i].path@ == object.path);
    let of_log = listed_of(listed, ingester_id, listed.len());
    assert(of_log.contains(object));
    assert(of_log.len() > 0);
    let l = choose|l: int| 0 <= l < logs.len() && (#[trigger] logs[l]).ingester_id@ == ingester_id;
    let o = choose|o: int| 0 <= o < of_log.len() && of_log[o] == object;
    assert(object_models(logs[l].objects@) == of_log);
    assert(object_models(logs[l].objects@)[o] == object);
    assert(logs[l].objects@[o].wal_id.0 == wal_id);
}

/// Logs have no objects but listed ones that name them, and none of these was assessed yet.
pub proof fn logs_are_made_of_listed_objects(
    logs: Seq<GcLog>,
    listed: Seq<ListedObject>,
    l: int,
    o: int,
)
    requires
        groups(logs, listed, listed.len()),
        unassessed(logs),
        0 <= l < logs.len(),
        0 <= o < logs[l].objects@.len(),
    ensures
        logs[l].objects@[o].footer is None,
        exists|i: int|
            0 <= i < listed.len() && wal::ingester_object((#[trigger] listed[i]).path@) == Some(
                (logs[l].ingester_id@, logs[l].objects@[o].wal_id.0),
            ) && listed[i].path@ == logs[l].objects@[o].path@ && listed[i].num_bytes
                == logs[l].objects@[o].num_bytes && listed[i].last_modified_nanos
                == logs[l].objects@[o].last_modified_nanos,
{
    let models = object_models(logs[l].objects@);
    assert(models == listed_of(listed, logs[l].ingester_id@, listed.len()));
    assert(models.contains(models[o]));
    logs_have_the_objects_that_name_them(
        listed,
        logs[l].ingester_id@,
        listed.len(),
        models[o],
    );
}

/// Logs come in the order of their ingesters, none twice.
pub proof fn logs_come_in_order(logs: Seq<GcLog>, i: int, j: int)
    requires
        logs_in_order(logs),
        0 <= i < j < logs.len(),
    ensures
        text::text_before(logs[i].ingester_id@, logs[j].ingester_id@),
{
}

/// How the read of a footer is assessed.
pub open spec fn assessed(read: WalResult<WalFooter>) -> FooterAssessment {
    match read {
        Ok(footer) => FooterAssessment::Known(footer),
        Err(error) => if error matches WalError::Storage(storage_error) && storage_error.kind
            == StorageErrorKind::NotFound {
            FooterAssessment::Deleted
        } else {
            FooterAssessment::Skipped
        },
    }
}

/// A footer is known exactly if it was read. An object that is not there was deleted meanwhile; one
/// that cannot be read is passed over, and so never taken for one that holds nothing.
pub proof fn unread_footers_are_never_known(read: WalResult<WalFooter>)
    ensures
        read is Ok ==> assessed(read) == FooterAssessment::Known(read->Ok_0),
        assessed(read) is Deleted <==> (read matches Err(WalError::Storage(error)) && error.kind
            == StorageErrorKind::NotFound),
        assessed(read) is Skipped <==> read is Err && !(read matches Err(WalError::Storage(error))
            && error.kind == StorageErrorKind::NotFound),
{
}

/// A source is asked for exactly if it was before, or a block is of it.
pub proof fn sources_of_all_blocks_are_asked(
    pairs: Seq<(Seq<char>, Seq<char>)>,
    blocks: Seq<GcBlock>,
    n: nat,
    pair: (Seq<char>, Seq<char>),
)
    requires
        n <= blocks.len(),
    ensures
        with_block_sources(pairs, blocks, n).contains(pair) <==> pairs.contains(pair) || exists|i: int|
            0 <= i < n && ((#[trigger] blocks[i]).key matches Some(key) && key.index_uid@ == pair.0
                && key.source_id@ == pair.1),
    decreases n,
{
    if n > 0 {
        let before = with_block_sources(pairs, blocks, (n - 1) as nat);
        let all = with_block_sources(pairs, blocks, n);
        sources_of_all_blocks_are_asked(pairs, blocks, (n - 1) as nat, pair);
        if all.contains(pair) && !before.contains(pair) {
            let k = choose|k: int| 0 <= k < all.len() && all[k] == pair;
            if k < before.len() {
                assert(before[k] == pair);
            }
            assert(blocks[n - 1].key matches Some(key) && key.index_uid@ == pair.0
                && key.source_id@ == pair.1);
        }
        if before.contains(pair) {
            let k = choose|k: int| 0 <= k < before.len() && before[k] == pair;
            assert(all[k] == pair);
        }
        if blocks[n - 1].key matches Some(key) && key.index_uid@ == pair.0 && key.source_id@
            == pair.1 {
            if !before.contains(pair) {
                assert(all[all.len() - 1] == pair);
            }
        }
    }
}

/// A shard is published up to the position that its first entry gives, and to none if it has no
/// entry.
pub proof fn positions_are_those_of_the_shard(
    shards: Seq<ShardPosition>,
    shard_id: Seq<char>,
    n: nat,
)
    requires
        n <= shards.len(),
    ensures
        position_of(shards, shard_id, n) is None <==> forall|i: int|
            0 <= i < n ==> (#[trigger] shards[i]).shard_id@ != shard_id,
        position_of(shards, shard_id, n) matches Some(position) ==> exists|i: int|
            0 <= i < n && (#[trigger] shards[i]).shard_id@ == shard_id && shards[i].position
                == position && forall|j: int|
                0 <= j < i ==> (#[trigger] shards[j]).shard_id@ != shard_id,
    decreases n,
{
    if n > 0 {
        positions_are_those_of_the_shard(shards, shard_id, (n - 1) as nat);
        if position_of(shards, shard_id, (n - 1) as nat) is None && shards[n - 1].shard_id@
            == shard_id {
            assert(shards[n - 1].position == position_of(shards, shard_id, n)->0);
        }
    }
}

/// The answer for a source is the first one there is for it.
pub proof fn answers_are_those_of_the_source(
    sources: Seq<SourceStatus>,
    index_uid: Seq<char>,
    source_id: Seq<char>,
    n: nat,
)
    requires
        n <= sources.len(),
    ensures
        answer_of(sources, index_uid, source_id, n) is None <==> forall|i: int|
            0 <= i < n ==> (#[trigger] sources[i]).source.index_uid@ != index_uid
                || sources[i].source.source_id@ != source_id,
        answer_of(sources, index_uid, source_id, n) matches Some(answer) ==> exists|i: int|
            0 <= i < n && (#[trigger] sources[i]).source.index_uid@ == index_uid
                && sources[i].source.source_id@ == source_id && sources[i].answer == answer
                && forall|j: int|
                0 <= j < i ==> (#[trigger] sources[j]).source.index_uid@ != index_uid
                    || sources[j].source.source_id@ != source_id,
    decreases n,
{
    if n > 0 {
        answers_are_those_of_the_source(sources, index_uid, source_id, (n - 1) as nat);
        if answer_of(sources, index_uid, source_id, (n - 1) as nat) is None && sources[n
            - 1].source.index_uid@ == index_uid && sources[n - 1].source.source_id@ == source_id {
            assert(sources[n - 1].answer == answer_of(sources, index_uid, source_id, n)->0);
        }
    }
}

/// Where a shard stands is decided by the first answer for its source: nothing is known if that
/// failed, the shard is gone if the source is or does not list it, and otherwise it is published up
/// to the position that is listed first for it.
pub proof fn shards_stand_where_their_source_says(
    sources: Seq<SourceStatus>,
    key: QueueKey,
    s: int,
    k: int,
)
    requires
        0 <= s < sources.len(),
        sources[s].source.index_uid@ == key.index_uid@,
        sources[s].source.source_id@ == key.source_id@,
        forall|j: int|
            0 <= j < s ==> (#[trigger] sources[j]).source.index_uid@ != key.index_uid@
                || sources[j].source.source_id@ != key.source_id@,
    ensures
        sources[s].answer is Failed ==> status_of(sources, Some(key)) is None,
        sources[s].answer is Gone ==> status_of(sources, Some(key)) == Some(
            ShardPublishStatus::Gone,
        ),
        sources[s].answer matches SourceAnswer::Shards(shards) && (forall|j: int|
            0 <= j < shards@.len() ==> (#[trigger] shards@[j]).shard_id@ != key.shard_id@)
            ==> status_of(sources, Some(key)) == Some(ShardPublishStatus::Gone),
        sources[s].answer matches SourceAnswer::Shards(shards) && 0 <= k < shards@.len()
            && shards@[k].shard_id@ == key.shard_id@ && (forall|j: int|
            0 <= j < k ==> (#[trigger] shards@[j]).shard_id@ != key.shard_id@) ==> status_of(
            sources,
            Some(key),
        ) == Some(ShardPublishStatus::Published(sources[s].answer->Shards_0@[k].position)),
{
    answers_are_those_of_the_source(sources, key.index_uid@, key.source_id@, sources.len());
    let found = choose|i: int|
        0 <= i < sources.len() && (#[trigger] sources[i]).source.index_uid@ == key.index_uid@
            && sources[i].source.source_id@ == key.source_id@ && Some(sources[i].answer)
            == answer_of(sources, key.index_uid@, key.source_id@, sources.len()) && forall|j: int|
            0 <= j < i ==> (#[trigger] sources[j]).source.index_uid@ != key.index_uid@
                || sources[j].source.source_id@ != key.source_id@;
    assert(sources[s].source.index_uid@ == key.index_uid@);
    assert(found == s);
    if let SourceAnswer::Shards(shards) = sources[s].answer {
        positions_are_those_of_the_shard(shards@, key.shard_id@, shards@.len());
    }
}

/// Nothing is known of a queue that names no shard, nor of a shard whose source was not asked.
pub proof fn unasked_shards_are_unknown(sources: Seq<SourceStatus>, key: QueueKey)
    ensures
        status_of(sources, None) is None,
        (forall|j: int|
            0 <= j < sources.len() ==> (#[trigger] sources[j]).source.index_uid@ != key.index_uid@
                || sources[j].source.source_id@ != key.source_id@) ==> status_of(
            sources,
            Some(key),
        ) is None,
{
    answers_are_those_of_the_source(sources, key.index_uid@, key.source_id@, sources.len());
}

/// The newest fence of a log is the one with the highest id.
pub proof fn newest_fences_have_the_highest_id(objects: Seq<GcObject>)
    ensures
        newest_fence(objects, objects.len()) is None <==> forall|j: int|
            0 <= j < objects.len() ==> !((#[trigger] objects[j]).footer matches Some(footer)
                && footer.is_fence),
        newest_fence(objects, objects.len()) matches Some(id) ==> {
            &&& exists|j: int|
                0 <= j < objects.len() && ((#[trigger] objects[j]).footer matches Some(footer)
                    && footer.is_fence) && objects[j].wal_id.0 == id
            &&& forall|j: int|
                0 <= j < objects.len() && ((#[trigger] objects[j]).footer matches Some(footer)
                    && footer.is_fence) ==> objects[j].wal_id.0 <= id
        },
{
    lemma_newest_fence_bounds(objects, objects.len());
    if let Some(id) = newest_fence(objects, objects.len()) {
        let j = choose|j: int|
            0 <= j < objects.len() && is_fence(#[trigger] objects[j]) && objects[j].wal_id.0 == id;
        assert(objects[j].wal_id.0 == id);
        assert forall|j: int|
            0 <= j < objects.len() && ((#[trigger] objects[j]).footer matches Some(footer)
                && footer.is_fence) implies objects[j].wal_id.0 <= id by {
            assert(is_fence(objects[j]));
        }
    }
    assert forall|j: int|
        0 <= j < objects.len() && newest_fence(objects, objects.len()) is None implies !((
    #[trigger] objects[j]).footer matches Some(footer) && footer.is_fence) by {
        if is_fence(objects[j]) {
        }
    }
}

/// An object is young if it was modified less than the minimal age before now, by the clock. No young
/// object is ever deleted, and none whose footer is not known.
pub proof fn young_objects_are_never_deleted(
    objects: Seq<GcObject>,
    sources: Seq<SourceStatus>,
    params: IngestWalGcParams,
    now_nanos: u128,
    i: int,
)
    requires
        0 <= i < objects.len(),
    ensures
        params.min_age_nanos > 0 && now_nanos - objects[i].last_modified_nanos
            < params.min_age_nanos ==> verdict_in_log(objects, sources, params, now_nanos, i)
            == Verdict::Keep,
        verdict_in_log(objects, sources, params, now_nanos, i) == Verdict::Delete
            ==> params.min_age_nanos == 0 || now_nanos - objects[i].last_modified_nanos
            >= params.min_age_nanos,
        objects[i].footer is None ==> verdict_in_log(objects, sources, params, now_nanos, i)
            == Verdict::Keep,
{
}

/// A fence that is old enough is deleted exactly if there is a newer one in its log.
pub proof fn superseded_fences_are_deleted(
    objects: Seq<GcObject>,
    sources: Seq<SourceStatus>,
    params: IngestWalGcParams,
    now_nanos: u128,
    i: int,
)
    requires
        0 <= i < objects.len(),
        objects[i].footer matches Some(footer) && footer.is_fence,
        params.min_age_nanos == 0 || now_nanos - objects[i].last_modified_nanos
            >= params.min_age_nanos,
    ensures
        verdict_in_log(objects, sources, params, now_nanos, i) == (if exists|j: int|
            0 <= j < objects.len() && ((#[trigger] objects[j]).footer matches Some(footer)
                && footer.is_fence) && objects[j].wal_id.0 > objects[i].wal_id.0 {
            Verdict::Delete
        } else {
            Verdict::Keep
        }),
{
    newest_fences_have_the_highest_id(objects);
    let id = newest_fence(objects, objects.len())->0;
    assert(objects[i].wal_id.0 <= id);
    let j = choose|j: int|
        0 <= j < objects.len() && ((#[trigger] objects[j]).footer matches Some(footer)
            && footer.is_fence) && objects[j].wal_id.0 == id;
    assert(objects[j].wal_id.0 == id);
}

/// A data object that is old enough is deleted exactly if all its blocks are covered. Otherwise its
/// first block that is not covered decides: the object is passed over if nothing is known of that
/// block's shard, and kept if the shard still needs it.
pub proof fn first_needed_blocks_decide(
    objects: Seq<GcObject>,
    sources: Seq<SourceStatus>,
    params: IngestWalGcParams,
    now_nanos: u128,
    i: int,
    b: int,
)
    requires
        0 <= i < objects.len(),
        objects[i].footer matches Some(footer) && !footer.is_fence && 0 <= b <= footer.blocks@.len(),
        params.min_age_nanos == 0 || now_nanos - objects[i].last_modified_nanos
            >= params.min_age_nanos,
        forall|j: int|
            0 <= j < b ==> (status_of(sources, (#[trigger] objects[i].footer->0.blocks@[j]).key)
                matches Some(status) && status.covers_position(
                objects[i].footer->0.blocks@[j].last_position,
            )),
        b < objects[i].footer->0.blocks@.len() ==> !(status_of(
            sources,
            objects[i].footer->0.blocks@[b].key,
        ) matches Some(status) && status.covers_position(
            objects[i].footer->0.blocks@[b].last_position,
        )),
    ensures
        verdict_in_log(objects, sources, params, now_nanos, i) == (if b
            == objects[i].footer->0.blocks@.len() {
            Verdict::Delete
        } else if status_of(sources, objects[i].footer->0.blocks@[b].key) is None {
            Verdict::Skip
        } else {
            Verdict::Keep
        }),
{
    lemma_first_uncovered_block_decides(sources, objects[i].footer->0.blocks@, 0, b);
}

proof fn lemma_first_uncovered_block_decides(
    sources: Seq<SourceStatus>,
    blocks: Seq<GcBlock>,
    from: nat,
    b: int,
)
    requires
        from <= b <= blocks.len(),
        forall|j: int| from <= j < b ==> block_covered(sources, #[trigger] blocks[j]),
        b < blocks.len() ==> !block_covered(sources, blocks[b]),
    ensures
        blocks_verdict(sources, blocks, from) == (if b == blocks.len() {
            Verdict::Delete
        } else if status_of(sources, blocks[b].key) is None {
            Verdict::Skip
        } else {
            Verdict::Keep
        }),
    decreases blocks.len() - from,
{
    if from < b {
        assert(block_covered(sources, blocks[from as int]));
        lemma_first_uncovered_block_decides(sources, blocks, from + 1, b);
    }
}

/// The deletions of a pass are the objects whose verdict says so: each with its path and its size,
/// and nothing else.
pub proof fn passes_delete_what_the_verdicts_say(
    logs: Seq<GcLog>,
    sources: Seq<SourceStatus>,
    params: IngestWalGcParams,
    now_nanos: u128,
    n: nat,
    deletion: (Seq<char>, u64),
)
    requires
        n <= logs.len(),
    ensures
        pass_deletions(logs, sources, params, now_nanos, n).contains(deletion)
            <==> exists|l: int, o: int|
            0 <= l < n && 0 <= o < logs[l].objects@.len() && verdict_in_log(
                logs[l].objects@,
                sources,
                params,
                now_nanos,
                o,
            ) == Verdict::Delete && (#[trigger] logs[l].objects@[o]).path@ == deletion.0
                && logs[l].objects@[o].num_bytes == deletion.1,
    decreases n,
{
    let all = pass_deletions(logs, sources, params, now_nanos, n);
    if n == 0 {
        assert(!all.contains(deletion));
    } else {
        let before = pass_deletions(logs, sources, params, now_nanos, (n - 1) as nat);
        let objects = logs[n - 1].objects@;
        let added = log_deletions(objects, sources, params, now_nanos, objects.len());
        passes_delete_what_the_verdicts_say(
            logs,
            sources,
            params,
            now_nanos,
            (n - 1) as nat,
            deletion,
        );
        lemma_log_deletions(objects, sources, params, now_nanos, objects.len(), deletion);
        if all.contains(deletion) {
            let k = choose|k: int| 0 <= k < all.len() && all[k] == deletion;
            if k < before.len() {
                assert(before[k] == deletion);
            } else {
                assert(added[k - before.len()] == deletion);
                let o = choose|o: int|
                    0 <= o < objects.len() && verdict_in_log(
                        objects,
                        sources,
                        params,
                        now_nanos,
                        o,
                    ) == Verdict::Delete && (#[trigger] objects[o]).path@ == deletion.0
                        && objects[o].num_bytes == deletion.1;
                assert(logs[n - 1].objects@[o].path@ == deletion.0);
            }
        }
        if exists|l: int, o: int|
            0 <= l < n && 0 <= o < logs[l].objects@.len() && verdict_in_log(
                logs[l].objects@,
                sources,
                params,
                now_nanos,
                o,
            ) == Verdict::Delete && (#[trigger] logs[l].objects@[o]).path@ == deletion.0
                && logs[l].objects@[o].num_bytes == deletion.1 {
            let (l, o) = choose|l: int, o: int|
                0 <= l < n && 0 <= o < logs[l].objects@.len() && verdict_in_log(
                    logs[l].objects@,
                    sources,
                    params,
                    now_nanos,
                    o,
                ) == Verdict::Delete && (#[trigger] logs[l].objects@[o]).path@ == deletion.0
                    && logs[l].objects@[o].num_bytes == deletion.1;
            if l < n - 1 {
                let k = choose|k: int| 0 <= k < before.len() && before[k] == deletion;
                assert(all[k] == deletion);
            } else {
                assert(objects[o].path@ == deletion.0);
                let k = choose|k: int| 0 <= k < added.len() && added[k] == deletion;
                assert(all[before.len() + k] == deletion);
            }
        }
    }
}

proof fn lemma_log_deletions(
    objects: Seq<GcObject>,
    sources: Seq<SourceStatus>,
    params: IngestWalGcParams,
    now_nanos: u128,
    n: nat,
    deletion: (Seq<char>, u64),
)
    requires
        n <= objects.len(),
    ensures
        log_deletions(objects, sources, params, now_nanos, n).contains(deletion) <==> exists|o: int|
            0 <= o < n && verdict_in_log(objects, sources, params, now_nanos, o) == Verdict::Delete
                && (#[trigger] objects[o]).path@ == deletion.0 && objects[o].num_bytes == deletion.1,
    decreases n,
{
    let all = log_deletions(objects, sources, params, now_nanos, n);
    if n == 0 {
        assert(!all.contains(deletion));
    } else {
        let before = log_deletions(objects, sources, params, now_nanos, (n - 1) as nat);
        lemma_log_deletions(objects, sources, params, now_nanos, (n - 1) as nat, deletion);
        if all.contains(deletion) {
            let k = choose|k: int| 0 <= k < all.len() && all[k] == deletion;
            if k < before.len() {
                assert(before[k] == deletion);
            } else {
                assert(objects[n - 1].path@ == deletion.0);
            }
        }
        if exists|o: int|
            0 <= o < n && verdict_in_log(objects, sources, params, now_nanos, o) == Verdict::Delete
                && (#[trigger] objects[o]).path@ == deletion.0 && objects[o].num_bytes
                == deletion.1 {
            let o = choose|o: int|
                0 <= o < n && verdict_in_log(objects, sources, params, now_nanos, o)
                    == Verdict::Delete && (#[trigger] objects[o]).path@ == deletion.0
                    && objects[o].num_bytes == deletion.1;
            if o < n - 1 {
                let k = choose|k: int| 0 <= k < before.len() && before[k] == deletion;
                assert(all[k] == deletion);
            } else {
                assert(all[all.len() - 1] == deletion);
            }
        }
    }
}

/// A pass counts every object once: as one of its log, and as deleted or as passed over if its
/// verdict says so. What it counts over several logs is the sum.
pub proof fn passes_count_every_object_once(
    logs: Seq<GcLog>,
    sources: Seq<SourceStatus>,
    params: IngestWalGcParams,
    now_nanos: u128,
    l: nat,
    o: nat,
)
    requires
        l < logs.len(),
        o < logs[l as int].objects@.len(),
    ensures
        ({
            let objects = logs[l as int].objects@;
            let verdict = verdict_in_log(objects, sources, params, now_nanos, o as int);
            &&& log_deletions(objects, sources, params, now_nanos, 0).len() == 0
            &&& log_skips(objects, sources, params, now_nanos, 0) == 0
            &&& log_deletions(objects, sources, params, now_nanos, o + 1).len() - log_deletions(
                objects,
                sources,
                params,
                now_nanos,
                o,
            ).len() == if verdict == Verdict::Delete {
                1int
            } else {
                0int
            }
            &&& log_skips(objects, sources, params, now_nanos, o + 1) - log_skips(
                objects,
                sources,
                params,
                now_nanos,
                o,
            ) == if verdict == Verdict::Skip {
                1int
            } else {
                0int
            }
            &&& pass_deletions(logs, sources, params, now_nanos, 0).len() == 0
            &&& pass_skips(logs, sources, params, now_nanos, 0) == 0
            &&& object_count(logs, 0) == 0
            &&& pass_deletions(logs, sources, params, now_nanos, l + 1).len() - pass_deletions(
                logs,
                sources,
                params,
                now_nanos,
                l,
            ).len() == log_deletions(objects, sources, params, now_nanos, objects.len()).len()
            &&& pass_skips(logs, sources, params, now_nanos, l + 1) - pass_skips(
                logs,
                sources,
                params,
                now_nanos,
                l,
            ) == log_skips(objects, sources, params, now_nanos, objects.len())
            &&& object_count(logs, l + 1) - object_count(logs, l) == objects.len()
        }),
{
}

/// Deletions are modelled one by one, and a real pass hands all their paths to the storage, in order.
pub proof fn real_passes_hand_every_path_on(
    deletions: Seq<Deletion>,
    params: IngestWalGcParams,
    i: int,
)
    requires
        0 <= i < deletions.len(),
        !params.dry_run,
    ensures
        deletion_pairs(deletions).len() == deletions.len(),
        deletion_pairs(deletions)[i].0 == deletions[i].path@,
        deletion_pairs(deletions)[i].1 == deletions[i].num_bytes,
        handed_paths(deletion_pairs(deletions), params).len() == deletions.len(),
        handed_paths(deletion_pairs(deletions), params)[i] == deletions[i].path@,
{
}

/// What came of the deletions is what the storage says, unless it was not asked. A path counts as
/// deleted unless the storage says that it failed.
pub proof fn storages_say_what_was_deleted(
    params: IngestWalGcParams,
    answer: Result<(), Vec<String>>,
    path: Seq<char>,
)
    ensures
        params.dry_run <==> outcome_of(params, answer) is DryRun,
        !params.dry_run && answer is Ok ==> outcome_of(params, answer) is Deleted,
        !params.dry_run && answer is Err ==> outcome_of(params, answer) is Failed,
        params.dry_run || answer is Ok ==> counts_as_deleted(outcome_of(params, answer), path),
        !params.dry_run && answer is Err ==> (counts_as_deleted(
            outcome_of(params, answer),
            path,
        ) <==> forall|i: int|
            0 <= i < answer->Err_0@.len() ==> (#[trigger] answer->Err_0@[i])@ != path),
{
    if !params.dry_run {
        if let Err(failed) = answer {
            let texts = crate::path::texts(failed@);
            if texts.contains(path) {
                let i = choose|i: int| 0 <= i < texts.len() && texts[i] == path;
                assert(failed@[i]@ == path);
            }
            assert forall|i: int| 0 <= i < failed@.len() && !texts.contains(path) implies (
            #[trigger] failed@[i])@ != path by {
                assert(texts[i] == failed@[i]@);
            }
        }
    }
}

/// A report counts every planned deletion once, with its bytes, if it counts as deleted.
pub proof fn reports_count_what_was_deleted(
    pairs: Seq<(Seq<char>, u64)>,
    outcome: DeletionOutcome,
    n: nat,
)
    requires
        n < pairs.len(),
    ensures
        deleted_count(pairs, outcome, 0) == 0,
        deleted_bytes(pairs, outcome, 0) == 0,
        deleted_count(pairs, outcome, n + 1) - deleted_count(pairs, outcome, n) == if counts_as_deleted(
            outcome,
            pairs[n as int].0,
        ) {
            1int
        } else {
            0int
        },
        deleted_bytes(pairs, outcome, n + 1) - deleted_bytes(pairs, outcome, n) == if counts_as_deleted(
            outcome,
            pairs[n as int].0,
        ) {
            pairs[n as int].1 as int
        } else {
            0int
        },
{
}

/// The footer cache drops exactly the planned paths that were deleted.
pub proof fn deleted_paths_are_gone(
    pairs: Seq<(Seq<char>, u64)>,
    outcome: DeletionOutcome,
    n: nat,
    path: Seq<char>,
)
    requires
        n <= pairs.len(),
    ensures
        gone_paths(pairs, outcome, n).contains(path) <==> !(outcome is DryRun) && counts_as_deleted(
            outcome,
            path,
        ) && exists|i: int| 0 <= i < n && (#[trigger] pairs[i]).0 == path,
    decreases n,
{
    if gone_paths(pairs, outcome, n).contains(path) {
        lemma_gone_paths_are_planned(pairs, outcome, n, path);
    }
    if n > 0 {
        let before = gone_paths(pairs, outcome, (n - 1) as nat);
        let all = gone_paths(pairs, outcome, n);
        deleted_paths_are_gone(pairs, outcome, (n - 1) as nat, path);
        if before.contains(path) {
            let k = choose|k: int| 0 <= k < before.len() && before[k] == path;
            assert(all[k] == path);
        } else if !(outcome is DryRun) && counts_as_deleted(outcome, path) && pairs[n - 1].0
            == path {
            assert(all[all.len() - 1] == path);
        }
    }
}

/// The footer cache drops exactly those of its paths that no object of the listing has any more.
pub proof fn unlisted_paths_are_dropped(
    cached: Seq<Seq<char>>,
    logs: Seq<GcLog>,
    n: nat,
    path: Seq<char>,
)
    requires
        n <= cached.len(),
    ensures
        unlisted_paths(cached, logs, n).contains(path) <==> (exists|i: int|
            0 <= i < n && #[trigger] cached[i] == path) && forall|l: int, o: int|
            0 <= l < logs.len() && 0 <= o < logs[l].objects@.len() ==> (
            #[trigger] logs[l].objects@[o]).path@ != path,
    decreases n,
{
    let all = unlisted_paths(cached, logs, n);
    if n == 0 {
        assert(!all.contains(path));
    } else {
        let before = unlisted_paths(cached, logs, (n - 1) as nat);
        unlisted_paths_are_dropped(cached, logs, (n - 1) as nat, path);
        if all.contains(path) {
            let k = choose|k: int| 0 <= k < all.len() && all[k] == path;
            if k < before.len() {
                assert(before[k] == path);
            } else {
                assert(cached[n - 1] == path);
                assert(!is_listed(logs, path));
            }
        }
        if before.contains(path) {
            let k = choose|k: int| 0 <= k < before.len() && before[k] == path;
            assert(all[k] == path);
        } else if cached[n - 1] == path && !is_listed(logs, path) {
            assert(all[all.len() - 1] == path);
        }
    }
}

/// Only an object that could be assessed and that is old enough is ever deleted.
pub proof fn only_old_assessed_objects_are_deleted(
    objects: Seq<GcObject>,
    sources: Seq<SourceStatus>,
    params: IngestWalGcParams,
    now_nanos: u128,
    i: int,
)
    requires
        0 <= i < objects.len(),
        verdict_in_log(objects, sources, params, now_nanos, i) == Verdict::Delete,
    ensures
        objects[i].footer is Some,
        age_nanos(objects[i], now_nanos) >= params.min_age_nanos,
{
}

/// A data object is deleted only once every record in it is published, or its shard is gone.
pub proof fn deleted_data_is_published(
    objects: Seq<GcObject>,
    sources: Seq<SourceStatus>,
    params: IngestWalGcParams,
    now_nanos: u128,
    i: int,
    b: int,
)
    requires
        0 <= i < objects.len(),
        verdict_in_log(objects, sources, params, now_nanos, i) == Verdict::Delete,
        objects[i].footer matches Some(footer) && !footer.is_fence && 0 <= b
            < footer.blocks@.len(),
    ensures
        block_covered(sources, objects[i].footer->0.blocks@[b]),
{
    lemma_deleted_blocks_are_covered(sources, objects[i].footer->0.blocks@, 0, b);
}

proof fn lemma_deleted_blocks_are_covered(
    sources: Seq<SourceStatus>,
    blocks: Seq<GcBlock>,
    from: nat,
    b: int,
)
    requires
        from <= b < blocks.len(),
        blocks_verdict(sources, blocks, from) == Verdict::Delete,
    ensures
        block_covered(sources, blocks[b]),
    decreases blocks.len() - from,
{
    if from < b {
        lemma_deleted_blocks_are_covered(sources, blocks, from + 1, b);
    }
}

/// An old data object whose records are all published is deleted.
pub proof fn published_data_is_deleted(
    objects: Seq<GcObject>,
    sources: Seq<SourceStatus>,
    params: IngestWalGcParams,
    now_nanos: u128,
    i: int,
)
    requires
        0 <= i < objects.len(),
        age_nanos(objects[i], now_nanos) >= params.min_age_nanos,
        objects[i].footer matches Some(footer) && !footer.is_fence && forall|b: int|
            0 <= b < footer.blocks@.len() ==> block_covered(sources, #[trigger] footer.blocks@[b]),
    ensures
        verdict_in_log(objects, sources, params, now_nanos, i) == Verdict::Delete,
{
    lemma_covered_blocks_are_deleted(sources, objects[i].footer->0.blocks@, 0);
}

proof fn lemma_covered_blocks_are_deleted(
    sources: Seq<SourceStatus>,
    blocks: Seq<GcBlock>,
    from: nat,
)
    requires
        forall|b: int| 0 <= b < blocks.len() ==> block_covered(sources, #[trigger] blocks[b]),
    ensures
        blocks_verdict(sources, blocks, from) == Verdict::Delete,
    decreases blocks.len() - from,
{
    if from < blocks.len() {
        assert(block_covered(sources, blocks[from as int]));
        lemma_covered_blocks_are_deleted(sources, blocks, from + 1);
    }
}

/// A dry run hands the storage no path to delete, whatever is planned, and the footer cache keeps
/// every object that would have been deleted.
pub proof fn dry_run_hands_nothing_to_the_storage(
    pairs: Seq<(Seq<char>, u64)>,
    params: IngestWalGcParams,
    answer: Result<(), Vec<String>>,
)
    requires
        params.dry_run,
    ensures
        handed_paths(pairs, params) == Seq::<Seq<char>>::empty(),
        gone_paths(pairs, outcome_of(params, answer), pairs.len()) == Seq::<Seq<char>>::empty(),
{
    lemma_dry_run_keeps_the_cache(pairs, pairs.len());
}

proof fn lemma_dry_run_keeps_the_cache(pairs: Seq<(Seq<char>, u64)>, n: nat)
    ensures
        gone_paths(pairs, DeletionOutcome::DryRun, n) == Seq::<Seq<char>>::empty(),
    decreases n,
{
    if n > 0 {
        lemma_dry_run_keeps_the_cache(pairs, (n - 1) as nat);
    }
}

/// The footer cache drops no object that the pass did not hand to the storage.
pub proof fn only_handed_paths_are_gone(
    pairs: Seq<(Seq<char>, u64)>,
    params: IngestWalGcParams,
    answer: Result<(), Vec<String>>,
    path: Seq<char>,
)
    requires
        gone_paths(pairs, outcome_of(params, answer), pairs.len()).contains(path),
    ensures
        handed_paths(pairs, params).contains(path),
        counts_as_deleted(outcome_of(params, answer), path),
{
    lemma_gone_paths_are_planned(pairs, outcome_of(params, answer), pairs.len(), path);
    let i = choose|i: int| 0 <= i < pairs.len() && (#[trigger] pairs[i]).0 == path;
    assert(handed_paths(pairs, params)[i] == path);
}

proof fn lemma_gone_paths_are_planned(
    pairs: Seq<(Seq<char>, u64)>,
    outcome: DeletionOutcome,
    n: nat,
    path: Seq<char>,
)
    requires
        n <= pairs.len(),
        gone_paths(pairs, outcome, n).contains(path),
    ensures
        !(outcome is DryRun),
        counts_as_deleted(outcome, path),
        exists|i: int| 0 <= i < n && (#[trigger] pairs[i]).0 == path,
    decreases n,
{
    if n > 0 {
        let before = gone_paths(pairs, outcome, (n - 1) as nat);
        let now = gone_paths(pairs, outcome, n);
        let k = choose|k: int| 0 <= k < now.len() && now[k] == path;
        if before.contains(path) {
            lemma_gone_paths_are_planned(pairs, outcome, (n - 1) as nat, path);
        } else {
            if k < before.len() {
                assert(before[k] == path);
            }
            assert(pairs[n - 1].0 == path);
        }
    }
}

/// A dry run reports the numbers of a real pass in which every deletion succeeds: it plans the same
/// deletions, passes over the same objects, and counts the same objects and bytes, with no failure.
pub proof fn dry_run_reports_a_real_pass(
    logs: Seq<GcLog>,
    sources: Seq<SourceStatus>,
    params: IngestWalGcParams,
    now_nanos: u128,
    answer: Result<(), Vec<String>>,
)
    ensures
        ({
            let dry = IngestWalGcParams { dry_run: true, ..params };
            let deleting = IngestWalGcParams { dry_run: false, ..params };
            let pairs = pass_deletions(logs, sources, dry, now_nanos, logs.len());
            let reported = outcome_of(dry, answer);
            let done = outcome_of(deleting, Ok(()));
            &&& pairs == pass_deletions(logs, sources, deleting, now_nanos, logs.len())
            &&& pass_skips(logs, sources, dry, now_nanos, logs.len()) == pass_skips(
                logs,
                sources,
                deleting,
                now_nanos,
                logs.len(),
            )
            &&& deleted_count(pairs, reported, pairs.len()) == deleted_count(
                pairs,
                done,
                pairs.len(),
            )
            &&& deleted_bytes(pairs, reported, pairs.len()) == deleted_bytes(
                pairs,
                done,
                pairs.len(),
            )
            &&& pairs.len() - deleted_count(pairs, reported, pairs.len()) == 0
        }),
{
    let dry = IngestWalGcParams { dry_run: true, ..params };
    let deleting = IngestWalGcParams { dry_run: false, ..params };
    lemma_plan_ignores_dry_run(logs, sources, dry, deleting, now_nanos, logs.len());
    let pairs = pass_deletions(logs, sources, dry, now_nanos, logs.len());
    lemma_dry_run_counts(pairs, pairs.len());
}

proof fn lemma_plan_ignores_dry_run(
    logs: Seq<GcLog>,
    sources: Seq<SourceStatus>,
    dry: IngestWalGcParams,
    deleting: IngestWalGcParams,
    now_nanos: u128,
    n: nat,
)
    requires
        dry.min_age_nanos == deleting.min_age_nanos,
    ensures
        pass_deletions(logs, sources, dry, now_nanos, n) == pass_deletions(
            logs,
            sources,
            deleting,
            now_nanos,
            n,
        ),
        pass_skips(logs, sources, dry, now_nanos, n) == pass_skips(
            logs,
            sources,
            deleting,
            now_nanos,
            n,
        ),
    decreases n,
{
    if n > 0 {
        lemma_plan_ignores_dry_run(logs, sources, dry, deleting, now_nanos, (n - 1) as nat);
        let objects = logs[n - 1].objects@;
        lemma_log_plan_ignores_dry_run(objects, sources, dry, deleting, now_nanos, objects.len());
    }
}

proof fn lemma_log_plan_ignores_dry_run(
    objects: Seq<GcObject>,
    sources: Seq<SourceStatus>,
    dry: IngestWalGcParams,
    deleting: IngestWalGcParams,
    now_nanos: u128,
    n: nat,
)
    requires
        dry.min_age_nanos == deleting.min_age_nanos,
    ensures
        log_deletions(objects, sources, dry, now_nanos, n) == log_deletions(
            objects,
            sources,
            deleting,
            now_nanos,
            n,
        ),
        log_skips(objects, sources, dry, now_nanos, n) == log_skips(
            objects,
            sources,
            deleting,
            now_nanos,
            n,
        ),
    decreases n,
{
    if n > 0 {
        lemma_log_plan_ignores_dry_run(objects, sources, dry, deleting, now_nanos, (n - 1) as nat);
    }
}

proof fn lemma_dry_run_counts(pairs: Seq<(Seq<char>, u64)>, n: nat)
    ensures
        deleted_count(pairs, DeletionOutcome::DryRun, n) == n,
        deleted_count(pairs, DeletionOutcome::Deleted, n) == n,
        deleted_bytes(pairs, DeletionOutcome::DryRun, n) == deleted_bytes(
            pairs,
            DeletionOutcome::Deleted,
            n,
        ),
    decreases n,
{
    if n > 0 {
        lemma_dry_run_counts(pairs, (n - 1) as nat);
    }
}

/// A cached footer whose object is not listed any more is among those that the cache drops.
pub proof fn cache_drops_deleted_objects(cached: Seq<Seq<char>>, logs: Seq<GcLog>, n: nat, i: int)
    requires
        0 <= i < n <= cached.len(),
        !is_listed(logs, cached[i]),
    ensures
        unlisted_paths(cached, logs, n).contains(cached[i]),
    decreases n,
{
    let before = unlisted_paths(cached, logs, (n - 1) as nat);
    let all = unlisted_paths(cached, logs, n);
    if i < n - 1 {
        cache_drops_deleted_objects(cached, logs, (n - 1) as nat, i);
        let k = choose|k: int| 0 <= k < before.len() && before[k] == cached[i];
        assert(all[k] == cached[i]);
    } else {
        assert(all.last() == cached[i]);
    }
}

/// The cache keeps the footers of objects that are listed, unless this pass deleted them.
pub proof fn cache_keeps_listed_objects(cached: Seq<Seq<char>>, logs: Seq<GcLog>, n: nat, path: Seq<char>)
    requires
        is_listed(logs, path),
    ensures
        !unlisted_paths(cached, logs, n).contains(path),
    decreases n,
{
    if n > 0 {
        cache_keeps_listed_objects(cached, logs, (n - 1) as nat, path);
        let before = unlisted_paths(cached, logs, (n - 1) as nat);
        let all = unlisted_paths(cached, logs, n);
        if all.contains(path) {
            let k = choose|k: int| 0 <= k < all.len() && all[k] == path;
            assert(k < before.len() ==> before[k] == path);
        }
    }
}

/// A shard that is covered at a position is covered at every earlier one.
pub proof fn coverage_reaches_back(status: ShardPublishStatus, later: u64, earlier: u64)
    requires
        earlier <= later,
        status.covers_position(Some(later)),
    ensures
        status.covers_position(Some(earlier)),
{
}

/// Whatever else is known of an object, it is deleted only if its footer was read and it has the minimum
/// age by its own time, and then only as a fence that is not the newest or as data whose blocks are all
/// published. An object that is too young, or whose footer is not known, is kept.
pub proof fn deletion_needs_age_and_coverage(
    object: GcObject,
    newest_fence: Option<u64>,
    sources: Seq<SourceStatus>,
    params: IngestWalGcParams,
    now_nanos: u128,
    b: int,
)
    ensures
        ({
            let verdict = object_verdict(object, newest_fence, sources, params, now_nanos);
            &&& verdict == Verdict::Delete ==> {
                &&& object.footer is Some
                &&& params.min_age_nanos == 0 || now_nanos - object.last_modified_nanos
                    >= params.min_age_nanos
                &&& object.footer->0.is_fence ==> newest_fence != Some(object.wal_id.0)
                &&& !object.footer->0.is_fence && 0 <= b < object.footer->0.blocks@.len() ==> (
                status_of(sources, object.footer->0.blocks@[b].key) matches Some(status)
                    && status.covers_position(object.footer->0.blocks@[b].last_position))
            }
            &&& object.footer is None ==> verdict == Verdict::Keep
            &&& params.min_age_nanos > 0 && now_nanos - object.last_modified_nanos
                < params.min_age_nanos ==> verdict == Verdict::Keep
            &&& verdict == Verdict::Skip ==> object.footer is Some && !object.footer->0.is_fence
        }),
{
    if let Some(footer) = object.footer {
        if 0 <= b < footer.blocks@.len() && blocks_verdict(sources, footer.blocks@, 0)
            == Verdict::Delete {
            lemma_deleted_blocks_are_covered(sources, footer.blocks@, 0, b);
        }
    }
}

/// A source is asked for once, however many blocks are of its shards, and the sources that were listed
/// before stay in front.
pub proof fn sources_are_asked_once(
    pairs: Seq<(Seq<char>, Seq<char>)>,
    blocks: Seq<GcBlock>,
    n: nat,
)
    requires
        n <= blocks.len(),
        pairs.no_duplicates(),
    ensures
        with_block_sources(pairs, blocks, n).no_duplicates(),
        pairs.is_prefix_of(with_block_sources(pairs, blocks, n)),
    decreases n,
{
    if n > 0 {
        sources_are_asked_once(pairs, blocks, (n - 1) as nat);
        let before = with_block_sources(pairs, blocks, (n - 1) as nat);
        let all = with_block_sources(pairs, blocks, n);
        if all != before {
            assert(forall|i: int| 0 <= i < before.len() ==> all[i] == before[i]);
            assert(all.subrange(0, pairs.len() as int) =~= before.subrange(0, pairs.len() as int));
        }
    } else {
        assert(pairs.subrange(0, pairs.len() as int) =~= pairs);
    }
}

} // verus!
