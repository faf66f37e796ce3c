//! What the indexing and merge pipelines of the two storage engines keep from one generation to
//! the next, and what they count.

use vstd::prelude::*;

use crate::parquet::{ParquetSplitKind, SplitState};
use crate::path;
use crate::publisher::PublisherCounters;
use crate::supervisor::{DrainMessage, DrainablePipeline, Pipeline, PipelineStatistics};
use crate::uploader::UploaderCounters;

verus! {

/// What an indexing pipeline has counted.
#[derive(Debug)]
pub struct IndexingStatistics {
    pub num_docs: u64,
    pub num_invalid_docs: u64,
    pub total_bytes_processed: u64,
    pub num_local_splits: u64,
    pub num_staged_splits: u64,
    pub num_uploaded_splits: u64,
    pub num_published_splits: u64,
    pub num_empty_splits: u64,
    pub generation: usize,
    pub num_spawn_attempts: usize,
    pub shard_ids: Vec<String>,
    pub params_fingerprint: u64,
}

/// The statistics of an indexing pipeline.
#[verifier::ext_equal]
pub struct IndexingModel {
    pub num_docs: int,
    pub num_invalid_docs: int,
    pub total_bytes_processed: int,
    pub num_local_splits: int,
    pub num_staged_splits: int,
    pub num_uploaded_splits: int,
    pub num_published_splits: int,
    pub num_empty_splits: int,
    pub generation: int,
    pub num_spawn_attempts: int,
    pub shard_ids: Seq<Seq<char>>,
    pub params_fingerprint: u64,
}

impl View for IndexingStatistics {
    type V = IndexingModel;

    open spec fn view(&self) -> IndexingModel {
        IndexingModel {
            num_docs: self.num_docs as int,
            num_invalid_docs: self.num_invalid_docs as int,
            total_bytes_processed: self.total_bytes_processed as int,
            num_local_splits: self.num_local_splits as int,
            num_staged_splits: self.num_staged_splits as int,
            num_uploaded_splits: self.num_uploaded_splits as int,
            num_published_splits: self.num_published_splits as int,
            num_empty_splits: self.num_empty_splits as int,
            generation: self.generation as int,
            num_spawn_attempts: self.num_spawn_attempts as int,
            shard_ids: path::texts(self.shard_ids@),
            params_fingerprint: self.params_fingerprint,
        }
    }
}

/// Copies a list of texts.
pub fn copy_texts(list: &Vec<String>) -> (copy: Vec<String>)
    ensures
        path::texts(copy@) == path::texts(list@),
{
    let mut copy: Vec<String> = Vec::new();
    for i in 0..list.len()
        invariant
            copy@.len() == i,
            forall|j: int| 0 <= j < i ==> (#[trigger] copy@[j])@ == list@[j]@,
    {
        copy.push(list[i].clone());
    }
    assert(path::texts(copy@) =~= path::texts(list@));
    copy
}

impl PipelineStatistics for IndexingStatistics {
    open spec fn nothing_yet() -> IndexingModel {
        IndexingModel {
            num_docs: 0,
            num_invalid_docs: 0,
            total_bytes_processed: 0,
            num_local_splits: 0,
            num_staged_splits: 0,
            num_uploaded_splits: 0,
            num_published_splits: 0,
            num_empty_splits: 0,
            generation: 0,
            num_spawn_attempts: 0,
            shard_ids: seq![],
            params_fingerprint: 0,
        }
    }

    open spec fn with_lifecycle(counters: IndexingModel, generation: usize, spawn_attempts: usize) -> IndexingModel {
        IndexingModel {
            generation: generation as int,
            num_spawn_attempts: spawn_attempts as int,
            ..counters
        }
    }

    fn empty() -> (statistics: Self) {
        let statistics = IndexingStatistics {
            num_docs: 0,
            num_invalid_docs: 0,
            total_bytes_processed: 0,
            num_local_splits: 0,
            num_staged_splits: 0,
            num_uploaded_splits: 0,
            num_published_splits: 0,
            num_empty_splits: 0,
            generation: 0,
            num_spawn_attempts: 0,
            shard_ids: Vec::new(),
            params_fingerprint: 0,
        };
        assert(path::texts(statistics.shard_ids@) =~= Seq::<Seq<char>>::empty());
        statistics
    }

    fn duplicate(&self) -> (statistics: Self) {
        IndexingStatistics {
            num_docs: self.num_docs,
            num_invalid_docs: self.num_invalid_docs,
            total_bytes_processed: self.total_bytes_processed,
            num_local_splits: self.num_local_splits,
            num_staged_splits: self.num_staged_splits,
            num_uploaded_splits: self.num_uploaded_splits,
            num_published_splits: self.num_published_splits,
            num_empty_splits: self.num_empty_splits,
            generation: self.generation,
            num_spawn_attempts: self.num_spawn_attempts,
            shard_ids: copy_texts(&self.shard_ids),
            params_fingerprint: self.params_fingerprint,
        }
    }

    fn set_lifecycle(&mut self, generation: usize, spawn_attempts: usize) {
        self.generation = generation;
        self.num_spawn_attempts = spawn_attempts;
    }
}

/// What a merge pipeline has counted.
#[derive(Clone, Copy, Debug, PartialEq, Eq, Structural)]
pub struct MergeStatistics {
    pub num_ongoing_merges: usize,
    pub num_uploaded_splits: u64,
    pub num_published_splits: u64,
    pub generation: usize,
    pub num_spawn_attempts: usize,
}

impl View for MergeStatistics {
    type V = MergeStatistics;

    open spec fn view(&self) -> MergeStatistics {
        *self
    }
}

impl PipelineStatistics for MergeStatistics {
    open spec fn nothing_yet() -> MergeStatistics {
        MergeStatistics {
            num_ongoing_merges: 0,
            num_uploaded_splits: 0,
            num_published_splits: 0,
            generation: 0,
            num_spawn_attempts: 0,
        }
    }

    open spec fn with_lifecycle(
        counters: MergeStatistics,
        generation: usize,
        spawn_attempts: usize,
    ) -> MergeStatistics {
        MergeStatistics { generation, num_spawn_attempts: spawn_attempts, ..counters }
    }

    fn empty() -> (statistics: Self) {
        MergeStatistics {
            num_ongoing_merges: 0,
            num_uploaded_splits: 0,
            num_published_splits: 0,
            generation: 0,
            num_spawn_attempts: 0,
        }
    }

    fn duplicate(&self) -> (statistics: Self) {
        *self
    }

    fn set_lifecycle(&mut self, generation: usize, spawn_attempts: usize) {
        self.generation = generation;
        self.num_spawn_attempts = spawn_attempts;
    }
}

/// The shards that an indexing pipeline reads, and the plan that assigned them.
#[derive(Debug)]
pub struct Assignment {
    pub shard_ids: Vec<String>,
    pub indexing_plan_id: String,
}

/// What the source of a generation is started with.
#[derive(Debug)]
pub struct SourceStart {
    pub assignment: Assignment,
    pub publish_token: Option<String>,
}

/// Source state belongs to the supervisor, not a generation: assignments and publish tokens survive
/// actor restarts. Both storage engines use exactly the same assignment semantics.
pub struct SourceState {
    pub assignment: Assignment,
    /// The token that lets the pipeline publish, once a source has acquired one.
    pub publish_token: Option<String>,
    pub params_fingerprint: u64,
}

/// The content of a text that may be missing.
pub open spec fn text_opt(text: Option<String>) -> Option<Seq<char>> {
    match text {
        Some(text) => Some(text@),
        None => None,
    }
}

fn copy_text_opt(text: &Option<String>) -> (copy: Option<String>)
    ensures
        text_opt(copy) == text_opt(*text),
{
    match text {
        Some(text) => Some(text.clone()),
        None => None,
    }
}

impl SourceState {
    /// Nothing is assigned yet, and there is no token.
    pub fn new(params_fingerprint: u64) -> (source: Self)
        ensures
            source.publish_token is None,
            path::texts(source.assignment.shard_ids@) == Seq::<Seq<char>>::empty(),
            source.assignment.indexing_plan_id@ == Seq::<char>::empty(),
            source.params_fingerprint == params_fingerprint,
    {
        let shard_ids: Vec<String> = Vec::new();
        assert(path::texts(shard_ids@) =~= Seq::<Seq<char>>::empty());
        SourceState {
            assignment: Assignment { shard_ids, indexing_plan_id: String::new() },
            publish_token: None,
            params_fingerprint,
        }
    }

    /// Counters with the shards that are assigned.
    pub open spec fn described(&self, counters: IndexingModel) -> IndexingModel {
        IndexingModel {
            shard_ids: path::texts(self.assignment.shard_ids@),
            params_fingerprint: self.params_fingerprint,
            ..counters
        }
    }

    /// Shows the shards that are assigned.
    pub fn update_metadata(&self, statistics: &mut IndexingStatistics)
        ensures
            final(statistics)@ == self.described(old(statistics)@),
    {
        statistics.shard_ids = copy_texts(&self.assignment.shard_ids);
        statistics.params_fingerprint = self.params_fingerprint;
    }

    /// What the source of the next generation is started with: the shards that are assigned, and
    /// the publish token that earlier generations had.
    pub fn spawn(&self) -> (start: SourceStart)
        ensures
            path::texts(start.assignment.shard_ids@) == path::texts(self.assignment.shard_ids@),
            start.assignment.indexing_plan_id@ == self.assignment.indexing_plan_id@,
            text_opt(start.publish_token) == text_opt(self.publish_token),
    {
        SourceStart {
            assignment: Assignment {
                shard_ids: copy_texts(&self.assignment.shard_ids),
                indexing_plan_id: self.assignment.indexing_plan_id.clone(),
            },
            publish_token: copy_text_opt(&self.publish_token),
        }
    }

    /// Takes note of the token that a source has acquired.
    pub fn set_publish_token(&mut self, publish_token: Option<String>)
        ensures
            final(self).publish_token == publish_token,
            final(self).assignment == old(self).assignment,
            final(self).params_fingerprint == old(self).params_fingerprint,
    {
        self.publish_token = publish_token;
    }

    /// Replaces the assignment.
    pub fn assign(&mut self, assignment: &Assignment)
        ensures
            path::texts(final(self).assignment.shard_ids@) == path::texts(assignment.shard_ids@),
            final(self).assignment.indexing_plan_id@ == assignment.indexing_plan_id@,
            final(self).publish_token == old(self).publish_token,
            final(self).params_fingerprint == old(self).params_fingerprint,
    {
        self.assignment =
        Assignment {
            shard_ids: copy_texts(&assignment.shard_ids),
            indexing_plan_id: assignment.indexing_plan_id.clone(),
        };
    }
}

/// Only indexing graphs accept shard assignments; merge graphs do not implement this trait.
pub trait SourcePipeline: Pipeline<Statistics = IndexingStatistics> {
    /// The shards that are assigned.
    spec fn assigned_shards(&self) -> Seq<Seq<char>>;

    /// The plan that assigned them.
    spec fn assigned_plan(&self) -> Seq<char>;

    /// The token that lets the pipeline publish.
    spec fn token(&self) -> Option<Seq<char>>;

    /// The fingerprint of the pipeline's parameters.
    spec fn fingerprint(&self) -> u64;

    /// Replaces the assignment.
    fn assign(&mut self, assignment: &Assignment)
        ensures
            final(self).assigned_shards() == path::texts(assignment.shard_ids@),
            final(self).assigned_plan() == assignment.indexing_plan_id@,
            final(self).token() == old(self).token(),
            final(self).fingerprint() == old(self).fingerprint(),
    ;

    /// Takes note of the token that a source has acquired.
    fn set_publish_token(&mut self, publish_token: Option<String>)
        ensures
            final(self).token() == text_opt(publish_token),
            final(self).assigned_shards() == old(self).assigned_shards(),
            final(self).assigned_plan() == old(self).assigned_plan(),
            final(self).fingerprint() == old(self).fingerprint(),
    ;

    /// What the source of the next generation is started with.
    fn start_source(&self) -> (start: SourceStart)
        ensures
            path::texts(start.assignment.shard_ids@) == self.assigned_shards(),
            start.assignment.indexing_plan_id@ == self.assigned_plan(),
            text_opt(start.publish_token) == self.token(),
    ;
}

/// The indexing pipeline of the Tantivy engine.
pub struct TantivyIndexing {
    pub source: SourceState,
}

impl Pipeline for TantivyIndexing {
    type Statistics = IndexingStatistics;

    open spec fn with_metadata(&self, counters: IndexingModel) -> IndexingModel {
        self.source.described(counters)
    }

    open spec fn restart_delay(&self) -> u64 {
        1000
    }

    fn restart_delay_millis(&self) -> (millis: u64) {
        1000
    }

    fn update_metadata(&self, statistics: &mut IndexingStatistics) {
        self.source.update_metadata(statistics);
    }
}

impl SourcePipeline for TantivyIndexing {
    open spec fn assigned_shards(&self) -> Seq<Seq<char>> {
        path::texts(self.source.assignment.shard_ids@)
    }

    open spec fn assigned_plan(&self) -> Seq<char> {
        self.source.assignment.indexing_plan_id@
    }

    open spec fn token(&self) -> Option<Seq<char>> {
        text_opt(self.source.publish_token)
    }

    open spec fn fingerprint(&self) -> u64 {
        self.source.params_fingerprint
    }

    fn assign(&mut self, assignment: &Assignment) {
        self.source.assign(assignment);
    }

    fn set_publish_token(&mut self, publish_token: Option<String>) {
        self.source.set_publish_token(publish_token);
    }

    fn start_source(&self) -> (start: SourceStart) {
        self.source.spawn()
    }
}

/// The indexing pipeline of the Parquet engine.
pub struct ParquetIndexing {
    pub source: SourceState,
}

impl Pipeline for ParquetIndexing {
    type Statistics = IndexingStatistics;

    open spec fn with_metadata(&self, counters: IndexingModel) -> IndexingModel {
        self.source.described(counters)
    }

    open spec fn restart_delay(&self) -> u64 {
        1000
    }

    fn restart_delay_millis(&self) -> (millis: u64) {
        1000
    }

    fn update_metadata(&self, statistics: &mut IndexingStatistics) {
        self.source.update_metadata(statistics);
    }
}

impl SourcePipeline for ParquetIndexing {
    open spec fn assigned_shards(&self) -> Seq<Seq<char>> {
        path::texts(self.source.assignment.shard_ids@)
    }

    open spec fn assigned_plan(&self) -> Seq<char> {
        self.source.assignment.indexing_plan_id@
    }

    open spec fn token(&self) -> Option<Seq<char>> {
        text_opt(self.source.publish_token)
    }

    open spec fn fingerprint(&self) -> u64 {
        self.source.params_fingerprint
    }

    fn assign(&mut self, assignment: &Assignment) {
        self.source.assign(assignment);
    }

    fn set_publish_token(&mut self, publish_token: Option<String>) {
        self.source.set_publish_token(publish_token);
    }

    fn start_source(&self) -> (start: SourceStart) {
        self.source.spawn()
    }
}

/// What the stages of one Parquet indexing generation have counted.
#[derive(Clone, Copy, Debug)]
pub struct ParquetStageCounters {
    pub valid_rows: u64,
    pub num_errors: u64,
    pub bytes_total: u64,
    pub batches_flushed: u64,
    pub uploader: UploaderCounters,
    pub publisher: PublisherCounters,
}

/// The statistics of earlier generations with those of one more.
pub open spec fn with_stages(statistics: IndexingModel, stages: ParquetStageCounters) -> IndexingModel {
    IndexingModel {
        num_docs: statistics.num_docs + stages.valid_rows,
        num_invalid_docs: statistics.num_invalid_docs + stages.num_errors,
        total_bytes_processed: statistics.total_bytes_processed + stages.bytes_total,
        num_local_splits: statistics.num_local_splits + stages.batches_flushed,
        num_staged_splits: statistics.num_staged_splits + stages.uploader.num_staged_splits,
        num_uploaded_splits: statistics.num_uploaded_splits + stages.uploader.num_uploaded_splits,
        num_published_splits: statistics.num_published_splits
            + stages.publisher.num_published_splits,
        num_empty_splits: statistics.num_empty_splits + stages.publisher.num_empty_splits,
        ..statistics
    }
}

/// No counter is beyond what it can count to.
pub open spec fn counters_fit(statistics: IndexingModel) -> bool {
    &&& statistics.num_docs <= u64::MAX
    &&& statistics.num_invalid_docs <= u64::MAX
    &&& statistics.total_bytes_processed <= u64::MAX
    &&& statistics.num_local_splits <= u64::MAX
    &&& statistics.num_staged_splits <= u64::MAX
    &&& statistics.num_uploaded_splits <= u64::MAX
    &&& statistics.num_published_splits <= u64::MAX
    &&& statistics.num_empty_splits <= u64::MAX
}

impl ParquetIndexing {
    /// Adds this generation's counters to the completed generations' statistics.
    pub fn observe(&self, stages: &ParquetStageCounters, previous: IndexingStatistics) -> (statistics:
        IndexingStatistics)
        requires
            counters_fit(with_stages(previous@, *stages)),
        ensures
            statistics@ == with_stages(previous@, *stages),
    {
        let mut statistics = previous;
        statistics.num_docs = statistics.num_docs + stages.valid_rows;
        statistics.num_invalid_docs = statistics.num_invalid_docs + stages.num_errors;
        statistics.total_bytes_processed = statistics.total_bytes_processed + stages.bytes_total;
        statistics.num_local_splits = statistics.num_local_splits + stages.batches_flushed;
        statistics.num_staged_splits =
        statistics.num_staged_splits + stages.uploader.num_staged_splits;
        statistics.num_uploaded_splits =
        statistics.num_uploaded_splits + stages.uploader.num_uploaded_splits;
        statistics.num_published_splits =
        statistics.num_published_splits + stages.publisher.num_published_splits;
        statistics.num_empty_splits =
        statistics.num_empty_splits + stages.publisher.num_empty_splits;
        statistics
    }
}

/// Counters are cumulative: adding a generation never takes anything away.
pub proof fn counters_accumulate(statistics: IndexingModel, stages: ParquetStageCounters)
    ensures
        with_stages(statistics, stages).num_docs >= statistics.num_docs,
        with_stages(statistics, stages).num_invalid_docs >= statistics.num_invalid_docs,
        with_stages(statistics, stages).total_bytes_processed >= statistics.total_bytes_processed,
        with_stages(statistics, stages).num_local_splits >= statistics.num_local_splits,
        with_stages(statistics, stages).num_staged_splits >= statistics.num_staged_splits,
        with_stages(statistics, stages).num_uploaded_splits >= statistics.num_uploaded_splits,
        with_stages(statistics, stages).num_published_splits >= statistics.num_published_splits,
        with_stages(statistics, stages).num_empty_splits >= statistics.num_empty_splits,
{
}

// ---- Merge pipelines ----

/// Where a merge pipeline has the immature splits from that a generation starts with.
pub enum Seed<S> {
    /// These splits.
    Splits(Vec<S>),
    /// All published immature splits that the metastore lists.
    Fetch,
}

/// What the metastore is asked for where a generation of a Tantivy merge pipeline starts with what
/// is published.
#[derive(Debug)]
pub struct ListSplitsQuery {
    pub index_uid: String,
    /// Only splits of this node.
    pub node_id: String,
    /// Only splits in this state.
    pub split_state: SplitState,
    /// Only splits that are not mature at this time, in seconds since the Unix epoch.
    pub immature_at: i64,
}

/// What the metastore is asked for where a generation of a Parquet merge pipeline starts with what
/// is published, by whatever node.
#[derive(Debug)]
pub struct ListParquetSplitsQuery {
    pub index_uid: String,
    /// Only splits of this kind.
    pub split_kind: ParquetSplitKind,
    /// Only splits in this state.
    pub split_state: SplitState,
    /// Only splits that are not mature at this time, in seconds since the Unix epoch.
    pub immature_at: i64,
}

/// The merge pipeline of the Tantivy engine.
pub struct TantivyMerge<S> {
    pub initial_immature_splits: Option<Vec<S>>,
    pub heartbeat_millis: u64,
}

impl<S> TantivyMerge<S> {
    /// What the next generation starts with: the splits that the pipeline was created with the
    /// first time, and what is published from then on.
    pub fn fetch_immature_splits(&mut self) -> (seed: Seed<S>)
        ensures
            seed == match old(self).initial_immature_splits {
                Some(splits) => Seed::Splits(splits),
                None => Seed::Fetch,
            },
            final(self).initial_immature_splits is None,
            final(self).heartbeat_millis == old(self).heartbeat_millis,
    {
        match self.initial_immature_splits.take() {
            Some(splits) => Seed::Splits(splits),
            None => Seed::Fetch,
        }
    }
}

impl<S> TantivyMerge<S> {
    /// The query for the splits of an index that are published by a node and not mature now.
    pub fn immature_splits_query(index_uid: &String, node_id: &String, now: i64) -> (query:
        ListSplitsQuery)
        ensures
            query.index_uid@ == index_uid@,
            query.node_id@ == node_id@,
            query.split_state == SplitState::Published,
            query.immature_at == now,
    {
        ListSplitsQuery {
            index_uid: index_uid.clone(),
            node_id: node_id.clone(),
            split_state: SplitState::Published,
            immature_at: now,
        }
    }
}

impl<S> Pipeline for TantivyMerge<S> {
    type Statistics = MergeStatistics;

    open spec fn with_metadata(&self, counters: MergeStatistics) -> MergeStatistics {
        counters
    }

    open spec fn restart_delay(&self) -> u64 {
        self.heartbeat_millis
    }

    fn restart_delay_millis(&self) -> (millis: u64) {
        self.heartbeat_millis
    }

    fn update_metadata(&self, _statistics: &mut MergeStatistics) {
    }
}

impl<S> DrainablePipeline for TantivyMerge<S> {
    fn drain(&self) -> (messages: Vec<DrainMessage>) {
        drain_messages()
    }
}

/// The merge pipeline of the Parquet engine.
pub struct ParquetMerge<S> {
    pub initial_immature_splits: Option<Vec<S>>,
    /// Start without historical splits (for deployments with an external compaction owner).
    pub skip_initial_seed: bool,
    pub heartbeat_millis: u64,
}

impl<S> ParquetMerge<S> {
    /// What the next generation starts with: the splits that the pipeline was created with the
    /// first time, and what is published from then on, unless it is to start without.
    pub fn fetch_immature_splits(&mut self) -> (seed: Seed<S>)
        ensures
            match old(self).initial_immature_splits {
                Some(splits) => seed == Seed::Splits(splits),
                None => if old(self).skip_initial_seed {
                    match seed {
                        Seed::Splits(splits) => splits@.len() == 0,
                        Seed::Fetch => false,
                    }
                } else {
                    seed == Seed::<S>::Fetch
                },
            },
            final(self).initial_immature_splits is None,
            final(self).skip_initial_seed == old(self).skip_initial_seed,
            final(self).heartbeat_millis == old(self).heartbeat_millis,
    {
        match self.initial_immature_splits.take() {
            Some(splits) => Seed::Splits(splits),
            None => {
                if self.skip_initial_seed {
                    Seed::Splits(Vec::new())
                } else {
                    Seed::Fetch
                }
            },
        }
    }
}

impl<S> ParquetMerge<S> {
    /// The query for the splits of an index and a kind that are published and not mature now.
    pub fn immature_splits_query(
        index_uid: &String,
        split_kind: ParquetSplitKind,
        now: i64,
    ) -> (query: ListParquetSplitsQuery)
        ensures
            query.index_uid@ == index_uid@,
            query.split_kind == split_kind,
            query.split_state == SplitState::Published,
            query.immature_at == now,
    {
        ListParquetSplitsQuery {
            index_uid: index_uid.clone(),
            split_kind,
            split_state: SplitState::Published,
            immature_at: now,
        }
    }
}

impl<S> Pipeline for ParquetMerge<S> {
    type Statistics = MergeStatistics;

    open spec fn with_metadata(&self, counters: MergeStatistics) -> MergeStatistics {
        counters
    }

    open spec fn restart_delay(&self) -> u64 {
        self.heartbeat_millis
    }

    fn restart_delay_millis(&self) -> (millis: u64) {
        self.heartbeat_millis
    }

    fn update_metadata(&self, _statistics: &mut MergeStatistics) {
    }
}

impl<S> DrainablePipeline for ParquetMerge<S> {
    fn drain(&self) -> (messages: Vec<DrainMessage>) {
        drain_messages()
    }
}

fn drain_messages() -> (messages: Vec<DrainMessage>)
    ensures
        messages@ == seq![
            DrainMessage::DisconnectMergePlanner,
            DrainMessage::RunFinalizeMergePolicyAndQuit,
        ],
{
    let mut messages: Vec<DrainMessage> = Vec::new();
    messages.push(DrainMessage::DisconnectMergePlanner);
    messages.push(DrainMessage::RunFinalizeMergePolicyAndQuit);
    messages
}

/// Each counter grows by exactly what its stage counted, and what the stages do not count stays as it
/// is.
pub proof fn counters_grow_by_what_the_stages_did(
    statistics: IndexingModel,
    stages: ParquetStageCounters,
)
    ensures
        ({
            let after = with_stages(statistics, stages);
            &&& after.num_docs - statistics.num_docs == stages.valid_rows
            &&& after.num_invalid_docs - statistics.num_invalid_docs == stages.num_errors
            &&& after.total_bytes_processed - statistics.total_bytes_processed
                == stages.bytes_total
            &&& after.num_local_splits - statistics.num_local_splits == stages.batches_flushed
            &&& after.num_staged_splits - statistics.num_staged_splits
                == stages.uploader.num_staged_splits
            &&& after.num_uploaded_splits - statistics.num_uploaded_splits
                == stages.uploader.num_uploaded_splits
            &&& after.num_published_splits - statistics.num_published_splits
                == stages.publisher.num_published_splits
            &&& after.num_empty_splits - statistics.num_empty_splits
                == stages.publisher.num_empty_splits
            &&& after.generation == statistics.generation
            &&& after.num_spawn_attempts == statistics.num_spawn_attempts
            &&& after.shard_ids == statistics.shard_ids
            &&& after.params_fingerprint == statistics.params_fingerprint
        }),
{
}

/// The statistics of a source name its shards and its parameters. What was counted stays as it is.
pub proof fn statistics_name_the_assigned_shards(source: SourceState, counters: IndexingModel)
    ensures
        ({
            let described = source.described(counters);
            &&& described.shard_ids == path::texts(source.assignment.shard_ids@)
            &&& described.params_fingerprint == source.params_fingerprint
            &&& described == (IndexingModel {
                shard_ids: described.shard_ids,
                params_fingerprint: described.params_fingerprint,
                ..counters
            })
        }),
{
}

/// Statistics start with nothing counted. The life of a pipeline changes its generation and the number of
/// attempts to spawn one, and nothing that was counted.
pub proof fn lifecycles_keep_what_was_counted(
    counters: IndexingModel,
    merges: MergeStatistics,
    generation: usize,
    spawn_attempts: usize,
)
    ensures
        ({
            let after = IndexingStatistics::with_lifecycle(counters, generation, spawn_attempts);
            &&& after.generation == generation
            &&& after.num_spawn_attempts == spawn_attempts
            &&& after.num_docs == counters.num_docs
            &&& after.num_invalid_docs == counters.num_invalid_docs
            &&& after.total_bytes_processed == counters.total_bytes_processed
            &&& after.num_local_splits == counters.num_local_splits
            &&& after.num_staged_splits == counters.num_staged_splits
            &&& after.num_uploaded_splits == counters.num_uploaded_splits
            &&& after.num_published_splits == counters.num_published_splits
            &&& after.num_empty_splits == counters.num_empty_splits
            &&& after.shard_ids == counters.shard_ids
            &&& after.params_fingerprint == counters.params_fingerprint
        }),
        ({
            let after = MergeStatistics::with_lifecycle(merges, generation, spawn_attempts);
            &&& after.generation == generation
            &&& after.num_spawn_attempts == spawn_attempts
            &&& after.num_ongoing_merges == merges.num_ongoing_merges
            &&& after.num_uploaded_splits == merges.num_uploaded_splits
            &&& after.num_published_splits == merges.num_published_splits
        }),
        ({
            let none = IndexingStatistics::nothing_yet();
            &&& none.num_docs == 0 && none.num_invalid_docs == 0 && none.total_bytes_processed == 0
            &&& none.num_local_splits == 0 && none.num_staged_splits == 0
            &&& none.num_uploaded_splits == 0 && none.num_published_splits == 0
            &&& none.num_empty_splits == 0 && none.generation == 0 && none.num_spawn_attempts == 0
            &&& none.shard_ids.len() == 0
        }),
        ({
            let none = MergeStatistics::nothing_yet();
            &&& none.num_ongoing_merges == 0 && none.num_uploaded_splits == 0
            &&& none.num_published_splits == 0 && none.generation == 0
            &&& none.num_spawn_attempts == 0
        }),
{
}

/// An indexing pipeline shows the shards and the token of its source, and is restarted after a second. A
/// merge pipeline has no source, and is restarted after a heartbeat.
pub proof fn pipelines_show_their_source<S>(
    tantivy: TantivyIndexing,
    parquet: ParquetIndexing,
    tantivy_merge: TantivyMerge<S>,
    parquet_merge: ParquetMerge<S>,
    counters: IndexingModel,
    merges: MergeStatistics,
)
    ensures
        tantivy.restart_delay() == 1000,
        parquet.restart_delay() == 1000,
        tantivy_merge.restart_delay() == tantivy_merge.heartbeat_millis,
        parquet_merge.restart_delay() == parquet_merge.heartbeat_millis,
        tantivy.with_metadata(counters).shard_ids == tantivy.assigned_shards(),
        parquet.with_metadata(counters).shard_ids == parquet.assigned_shards(),
        tantivy.with_metadata(counters).params_fingerprint == tantivy.fingerprint(),
        parquet.with_metadata(counters).params_fingerprint == parquet.fingerprint(),
        tantivy.with_metadata(counters).num_docs == counters.num_docs,
        parquet.with_metadata(counters).num_docs == counters.num_docs,
        tantivy_merge.with_metadata(merges) == merges,
        parquet_merge.with_metadata(merges) == merges,
        tantivy.assigned_shards() == path::texts(tantivy.source.assignment.shard_ids@),
        parquet.assigned_shards() == path::texts(parquet.source.assignment.shard_ids@),
        tantivy.assigned_plan() == tantivy.source.assignment.indexing_plan_id@,
        parquet.assigned_plan() == parquet.source.assignment.indexing_plan_id@,
        tantivy.source.publish_token is None <==> tantivy.token() is None,
        parquet.source.publish_token is None <==> parquet.token() is None,
        tantivy.source.publish_token matches Some(token) ==> tantivy.token() == Some(token@),
        parquet.source.publish_token matches Some(token) ==> parquet.token() == Some(token@),
        tantivy.fingerprint() == tantivy.source.params_fingerprint,
        parquet.fingerprint() == parquet.source.params_fingerprint,
{
}

/// What the supervisor of an indexing pipeline shows has its own generation and number of attempts, and
/// the shards that are assigned to it, whatever was observed. What was counted is shown as observed.
pub proof fn supervisors_show_their_own_lifecycle(
    tantivy: crate::supervisor::PipelineSupervisor<TantivyIndexing>,
    parquet: crate::supervisor::PipelineSupervisor<ParquetIndexing>,
    counters: IndexingModel,
)
    ensures
        tantivy.shown(counters).generation == tantivy.generation,
        parquet.shown(counters).generation == parquet.generation,
        tantivy.shown(counters).num_spawn_attempts == tantivy.spawn_attempts,
        parquet.shown(counters).num_spawn_attempts == parquet.spawn_attempts,
        tantivy.shown(counters).shard_ids == tantivy.pipeline.assigned_shards(),
        parquet.shown(counters).shard_ids == parquet.pipeline.assigned_shards(),
        tantivy.shown(counters).num_docs == counters.num_docs,
        parquet.shown(counters).num_docs == counters.num_docs,
        tantivy.shown(counters).num_published_splits == counters.num_published_splits,
        parquet.shown(counters).num_published_splits == counters.num_published_splits,
{
}

} // verus!
