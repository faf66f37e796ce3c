//! The Tantivy engine's part in publication and upload.

use vstd::prelude::*;

use crate::path;
use crate::pipeline::copy_texts;
use crate::publisher::SplitUpdate;
use crate::text::same_text;

verus! {

/// The name of the publisher of an indexing pipeline.
pub const PUBLISHER_NAME: &'static str = "Publisher";

/// The name of the publisher of a merge pipeline.
pub const MERGE_PUBLISHER_NAME: &'static str = "MergePublisher";

/// Whether merges still take a split up, and for how long.
#[derive(Clone, Copy, Debug, PartialEq, Eq, Structural)]
pub enum SplitMaturity {
    Mature,
    Immature { maturation_period_nanos: u128 },
}

/// Seconds since the epoch, both ends included.
#[derive(Clone, Copy, Debug, PartialEq, Eq, Structural)]
pub struct TimeRange {
    pub start: i64,
    pub end: i64,
}

/// The metadata of a Tantivy split.
#[derive(Debug)]
pub struct SplitMetadata {
    pub split_id: String,
    pub index_uid: String,
    pub source_id: String,
    pub node_id: String,
    pub doc_mapping_uid: u128,
    pub partition_id: u64,
    pub num_docs: usize,
    pub uncompressed_docs_size_in_bytes: u64,
    pub time_range: Option<TimeRange>,
    pub create_timestamp: i64,
    pub tags: Vec<String>,
    pub delete_opstamp: u64,
    pub num_merge_ops: usize,
    pub maturity: SplitMaturity,
    pub footer_offsets: FooterOffsets,
}

/// Where the footer of a split lies in its file.
#[derive(Clone, Copy, Debug, PartialEq, Eq, Structural)]
pub struct FooterOffsets {
    pub start: u64,
    pub end: u64,
}

/// What a split's file says of the split, for the day the metastore is lost.
#[derive(Debug)]
pub struct SplitRecoveryMetadata {
    pub split_id: String,
    pub index_uid: String,
    pub source_id: String,
    pub node_id: String,
    pub doc_mapping_uid: u128,
    pub partition_id: u64,
    pub num_docs: u64,
    pub uncompressed_docs_size_bytes: u64,
    pub time_range_start_inclusive: Option<i64>,
    pub time_range_end_inclusive: Option<i64>,
    pub create_timestamp: i64,
    pub tags: Vec<String>,
    pub delete_opstamp: u64,
    pub num_merge_ops: u64,
    pub parent_split_ids: Vec<String>,
    pub maturation_period_millis: Option<u64>,
}

/// The whole milliseconds of a maturation period, if there is one.
pub open spec fn maturation_millis(maturity: SplitMaturity) -> Option<int> {
    match maturity {
        SplitMaturity::Mature => None,
        SplitMaturity::Immature { maturation_period_nanos } => Some(
            maturation_period_nanos as int / 1_000_000,
        ),
    }
}

/// Whether recovery metadata says all that is known of a split and its parents.
pub open spec fn recovers(recovery: SplitRecoveryMetadata, split: SplitMetadata, parents: Seq<Seq<char>>) -> bool {
    &&& recovery.split_id@ == split.split_id@
    &&& recovery.index_uid@ == split.index_uid@
    &&& recovery.source_id@ == split.source_id@
    &&& recovery.node_id@ == split.node_id@
    &&& recovery.doc_mapping_uid == split.doc_mapping_uid
    &&& recovery.partition_id == split.partition_id
    &&& recovery.num_docs == split.num_docs
    &&& recovery.uncompressed_docs_size_bytes == split.uncompressed_docs_size_in_bytes
    &&& recovery.time_range_start_inclusive == match split.time_range {
        Some(range) => Some(range.start),
        None => None,
    }
    &&& recovery.time_range_end_inclusive == match split.time_range {
        Some(range) => Some(range.end),
        None => None,
    }
    &&& recovery.create_timestamp == split.create_timestamp
    &&& path::texts(recovery.tags@) == path::texts(split.tags@)
    &&& recovery.delete_opstamp == split.delete_opstamp
    &&& recovery.num_merge_ops == split.num_merge_ops
    &&& path::texts(recovery.parent_split_ids@) == parents
    &&& match (recovery.maturation_period_millis, maturation_millis(split.maturity)) {
        (Some(millis), Some(period)) => millis == period,
        (None, None) => true,
        _ => false,
    }
}

/// The recovery metadata of a split that replaces its parents.
pub fn create_split_recovery_metadata(split: &SplitMetadata, parents: &Vec<String>) -> (recovery:
    SplitRecoveryMetadata)
    requires
        maturation_millis(split.maturity) is Some ==> maturation_millis(split.maturity)->0
            <= u64::MAX,
    ensures
        recovers(recovery, *split, path::texts(parents@)),
{
    let maturation_period_millis: Option<u64> = match split.maturity {
        SplitMaturity::Mature => None,
        SplitMaturity::Immature { maturation_period_nanos } => Some(
            (maturation_period_nanos / 1_000_000) as u64,
        ),
    };
    let (start, end): (Option<i64>, Option<i64>) = match split.time_range {
        Some(range) => (Some(range.start), Some(range.end)),
        None => (None, None),
    };
    SplitRecoveryMetadata {
        split_id: split.split_id.clone(),
        index_uid: split.index_uid.clone(),
        source_id: split.source_id.clone(),
        node_id: split.node_id.clone(),
        doc_mapping_uid: split.doc_mapping_uid,
        partition_id: split.partition_id,
        num_docs: split.num_docs as u64,
        uncompressed_docs_size_bytes: split.uncompressed_docs_size_in_bytes,
        time_range_start_inclusive: start,
        time_range_end_inclusive: end,
        create_timestamp: split.create_timestamp,
        tags: copy_texts(&split.tags),
        delete_opstamp: split.delete_opstamp,
        num_merge_ops: split.num_merge_ops as u64,
        parent_split_ids: copy_texts(parents),
        maturation_period_millis,
    }
}

/// The maturity that recovery metadata stands for.
pub open spec fn recovered_maturity(recovery: SplitRecoveryMetadata) -> SplitMaturity {
    match recovery.maturation_period_millis {
        None => SplitMaturity::Mature,
        Some(millis) => SplitMaturity::Immature {
            maturation_period_nanos: (millis * 1_000_000) as u128,
        },
    }
}

impl SplitRecoveryMetadata {
    /// The maturity that the metadata stands for.
    pub fn maturity(&self) -> (maturity: SplitMaturity)
        ensures
            maturity == recovered_maturity(*self),
    {
        match self.maturation_period_millis {
            None => SplitMaturity::Mature,
            Some(millis) => SplitMaturity::Immature {
                maturation_period_nanos: millis as u128 * 1_000_000,
            },
        }
    }
}

/// Recovery metadata preserves maturity, to the millisecond.
pub proof fn recovery_preserves_maturity(
    recovery: SplitRecoveryMetadata,
    split: SplitMetadata,
    parents: Seq<Seq<char>>,
)
    requires
        recovers(recovery, split, parents),
        split.maturity matches SplitMaturity::Immature { maturation_period_nanos }
            ==> maturation_period_nanos % 1_000_000 == 0,
    ensures
        recovered_maturity(recovery) == split.maturity,
{
}

/// Completes the metadata of a split whose file has been laid out.
pub fn with_footer(split: SplitMetadata, footer_offsets: FooterOffsets) -> (completed: SplitMetadata)
    ensures
        completed == (SplitMetadata { footer_offsets, ..split }),
{
    let mut completed = split;
    completed.footer_offsets = footer_offsets;
    completed
}

// ---- Upload ----

/// A split that is packaged, with the splits that it replaces.
#[derive(Debug)]
pub struct PackagedSplit {
    pub split_id: String,
    pub index_uid: String,
    pub replaced_split_ids: Vec<String>,
}

/// Checks a batch: it holds at least one split, and all of one incarnation of an index.
pub fn check_batch(splits: &Vec<PackagedSplit>) -> (checked: Result<(), String>)
    ensures
        match checked {
            Ok(()) => splits@.len() > 0 && forall|i: int|
                0 <= i < splits@.len() ==> (#[trigger] splits@[i]).index_uid@
                    == splits@[0].index_uid@,
            Err(error) => {
                ||| splits@.len() == 0 && error@ == "packaged split batch must not be empty"@
                ||| {
                    &&& splits@.len() > 0
                    &&& error@ == "mixed index incarnations in upload batch"@
                    &&& exists|i: int|
                        0 <= i < splits@.len() && (#[trigger] splits@[i]).index_uid@
                            != splits@[0].index_uid@
                }
            },
        },
{
    if splits.len() == 0 {
        return Err("packaged split batch must not be empty".to_owned());
    }
    for i in 0..splits.len()
        invariant
            splits@.len() > 0,
            forall|j: int|
                0 <= j < i ==> (#[trigger] splits@[j]).index_uid@ == splits@[0].index_uid@,
    {
        if !same_text(splits[i].index_uid.as_str(), splits[0].index_uid.as_str()) {
            assert(splits@[i as int].index_uid@ != splits@[0].index_uid@);
            return Err("mixed index incarnations in upload batch".to_owned());
        }
    }
    Ok(())
}

/// A split that searchers are told of before it is stored.
#[derive(Debug)]
pub struct ReportSplit {
    pub storage_uri: String,
    pub split_id: String,
}

/// The report of a batch: every split, under the store's URI.
pub fn report_splits(splits: &Vec<PackagedSplit>, storage_uri: &String) -> (reports: Vec<ReportSplit>)
    ensures
        reports@.len() == splits@.len(),
        forall|i: int|
            0 <= i < reports@.len() ==> (#[trigger] reports@[i]).split_id@ == splits@[i].split_id@
                && reports@[i].storage_uri@ == storage_uri@,
{
    let mut reports: Vec<ReportSplit> = Vec::new();
    for i in 0..splits.len()
        invariant
            reports@.len() == i,
            forall|j: int|
                0 <= j < i ==> (#[trigger] reports@[j]).split_id@ == splits@[j].split_id@
                    && reports@[j].storage_uri@ == storage_uri@,
    {
        reports.push(
            ReportSplit {
                storage_uri: storage_uri.clone(),
                split_id: splits[i].split_id.clone(),
            },
        );
    }
    reports
}

/// Whether a split of the first `n` replaces the one with this id.
pub open spec fn is_replaced(splits: Seq<PackagedSplit>, n: int, id: Seq<char>) -> bool {
    exists|i: int|
        0 <= i < n && path::texts((#[trigger] splits[i]).replaced_split_ids@).contains(id)
}

fn holds_text(list: &Vec<String>, wanted: &String) -> (held: bool)
    ensures
        held == path::texts(list@).contains(wanted@),
{
    for i in 0..list.len()
        invariant
            forall|j: int| 0 <= j < i ==> path::texts(list@)[j] != wanted@,
    {
        if same_text(list[i].as_str(), wanted.as_str()) {
            assert(path::texts(list@)[i as int] == wanted@);
            return true;
        }
    }
    false
}

fn add_missing(list: &mut Vec<String>, added: &Vec<String>)
    requires
        path::texts(old(list)@).no_duplicates(),
    ensures
        path::texts(final(list)@).no_duplicates(),
        forall|id: Seq<char>|
            #[trigger] path::texts(final(list)@).contains(id) <==> (path::texts(
                old(list)@,
            ).contains(id) || path::texts(added@).contains(id)),
{
    let ghost before = path::texts(list@);
    let mut i: usize = 0;
    while i < added.len()
        invariant
            i <= added@.len(),
            path::texts(list@).no_duplicates(),
            forall|id: Seq<char>|
                #[trigger] path::texts(list@).contains(id) <==> (before.contains(id) || path::texts(
                    added@,
                ).take(i as int).contains(id)),
        decreases added@.len() - i,
    {
        let ghost so_far = path::texts(list@);
        let ghost taken = path::texts(added@).take(i as int);
        let ghost taking = path::texts(added@).take(i + 1);
        let ghost id = added@[i as int]@;
        proof {
            assert(taking =~= taken.push(id));
            assert(taking[i as int] == id);
            assert forall|other: Seq<char>| taking.contains(other) <==> (taken.contains(other)
                || other == id) by {
                if taking.contains(other) {
                    let j = choose|j: int| 0 <= j < taking.len() && taking[j] == other;
                    if j < i {
                        assert(taken[j] == other);
                    }
                }
                if taken.contains(other) {
                    let j = choose|j: int| 0 <= j < taken.len() && taken[j] == other;
                    assert(taking[j] == other);
                }
            }
        }
        if !holds_text(list, &added[i]) {
            list.push(added[i].clone());
            proof {
                let now = path::texts(list@);
                assert(now =~= so_far.push(id));
                assert(now[so_far.len() as int] == id);
                assert forall|other: Seq<char>| now.contains(other) <==> (so_far.contains(other)
                    || other == id) by {
                    if now.contains(other) {
                        let j = choose|j: int| 0 <= j < now.len() && now[j] == other;
                        if j < so_far.len() {
                            assert(so_far[j] == other);
                        }
                    }
                    if so_far.contains(other) {
                        let j = choose|j: int| 0 <= j < so_far.len() && so_far[j] == other;
                        assert(now[j] == other);
                    }
                }
            }
        }
        i = i + 1;
    }
    assert(path::texts(added@).take(added@.len() as int) =~= path::texts(added@));
}

/// The splits that a batch replaces, each once, in no order that matters.
pub fn replaced_split_ids(splits: &Vec<PackagedSplit>) -> (replaced: Vec<String>)
    ensures
        path::texts(replaced@).no_duplicates(),
        forall|id: Seq<char>|
            #[trigger] path::texts(replaced@).contains(id) <==> is_replaced(
                splits@,
                splits@.len() as int,
                id,
            ),
{
    let mut replaced: Vec<String> = Vec::new();
    let mut i: usize = 0;
    while i < splits.len()
        invariant
            i <= splits@.len(),
            path::texts(replaced@).no_duplicates(),
            forall|id: Seq<char>|
                #[trigger] path::texts(replaced@).contains(id) <==> is_replaced(
                    splits@,
                    i as int,
                    id,
                ),
        decreases splits@.len() - i,
    {
        let ghost before = path::texts(replaced@);
        add_missing(&mut replaced, &splits[i].replaced_split_ids);
        proof {
            assert forall|id: Seq<char>| #[trigger] path::texts(replaced@).contains(id) <==> is_replaced(
                splits@,
                i + 1,
                id,
            ) by {
                if before.contains(id) {
                    assert(is_replaced(splits@, i as int, id));
                }
                if path::texts(splits@[i as int].replaced_split_ids@).contains(id) {
                    assert(is_replaced(splits@, i + 1, id));
                }
                if is_replaced(splits@, i + 1, id) {
                    let j = choose|j: int|
                        0 <= j < i + 1 && path::texts(
                            (#[trigger] splits@[j]).replaced_split_ids@,
                        ).contains(id);
                    if j < i {
                        assert(is_replaced(splits@, i as int, id));
                    }
                }
            }
        }
        i = i + 1;
    }
    replaced
}

/// The publication of a batch whose splits are stored. The batch is of the incarnation of its
/// first split.
pub fn into_update<D, T>(
    splits: &Vec<PackagedSplit>,
    stored: Vec<SplitMetadata>,
    checkpoint_delta_opt: Option<D>,
    merge_task: Option<T>,
) -> (update: SplitUpdate<SplitMetadata, D, T>)
    requires
        splits@.len() > 0,
    ensures
        update.index_uid@ == splits@[0].index_uid@,
        update.new_splits == stored,
        path::texts(update.replaced_split_ids@).no_duplicates(),
        forall|id: Seq<char>|
            #[trigger] path::texts(update.replaced_split_ids@).contains(id) <==> is_replaced(
                splits@,
                splits@.len() as int,
                id,
            ),
        update.checkpoint_delta_opt == checkpoint_delta_opt,
        update.merge_task == merge_task,
{
    SplitUpdate {
        index_uid: splits[0].index_uid.clone(),
        new_splits: stored,
        replaced_split_ids: replaced_split_ids(splits),
        checkpoint_delta_opt,
        merge_task,
    }
}

/// The publication of a checkpoint that no split goes with.
pub fn empty_update<D, T>(index_uid: String, checkpoint_delta: D) -> (update: SplitUpdate<
    SplitMetadata,
    D,
    T,
>)
    ensures
        update.index_uid == index_uid,
        update.new_splits@.len() == 0,
        update.replaced_split_ids@.len() == 0,
        update.checkpoint_delta_opt == Some(checkpoint_delta),
        update.merge_task is None,
{
    SplitUpdate {
        index_uid,
        new_splits: Vec::new(),
        replaced_split_ids: Vec::new(),
        checkpoint_delta_opt: Some(checkpoint_delta),
        merge_task: None,
    }
}

// ---- Publication ----

/// The ids of splits.
pub open spec fn split_ids(splits: Seq<SplitMetadata>) -> Seq<Seq<char>> {
    Seq::new(splits.len(), |i: int| splits[i].split_id@)
}

/// A request to publish splits that were staged, in place of others.
pub struct PublishSplitsRequest {
    pub index_uid: String,
    pub staged_split_ids: Vec<String>,
    pub replaced_split_ids: Vec<String>,
    pub index_checkpoint_delta_json_opt: Option<String>,
    pub publish_token_opt: Option<String>,
}

/// The request that publishes an update, whose checkpoint delta comes as JSON.
pub fn publish_request<D, T>(
    update: &SplitUpdate<SplitMetadata, D, T>,
    checkpoint_delta_json: Option<String>,
    publish_token: Option<String>,
) -> (request: PublishSplitsRequest)
    ensures
        request.index_uid@ == update.index_uid@,
        path::texts(request.staged_split_ids@) == split_ids(update.new_splits@),
        path::texts(request.replaced_split_ids@) == path::texts(update.replaced_split_ids@),
        request.index_checkpoint_delta_json_opt == checkpoint_delta_json,
        request.publish_token_opt == publish_token,
{
    let mut ids: Vec<String> = Vec::new();
    for i in 0..update.new_splits.len()
        invariant
            ids@.len() == i,
            forall|j: int| 0 <= j < i ==> (#[trigger] ids@[j])@ == update.new_splits@[j].split_id@,
    {
        ids.push(update.new_splits[i].split_id.clone());
    }
    assert(path::texts(ids@) =~= split_ids(update.new_splits@));
    PublishSplitsRequest {
        index_uid: update.index_uid.clone(),
        staged_split_ids: ids,
        replaced_split_ids: copy_texts(&update.replaced_split_ids),
        index_checkpoint_delta_json_opt: checkpoint_delta_json,
        publish_token_opt: publish_token,
    }
}

/// The documents of the first `n` splits.
pub open spec fn docs_in(splits: Seq<SplitMetadata>, n: nat) -> nat
    decreases n,
{
    if n == 0 {
        0
    } else {
        docs_in(splits, (n - 1) as nat) + splits[n - 1].num_docs as nat
    }
}

/// The bytes of the first `n` splits: a split ends with its footer.
pub open spec fn bytes_in(splits: Seq<SplitMetadata>, n: nat) -> nat
    decreases n,
{
    if n == 0 {
        0
    } else {
        bytes_in(splits, (n - 1) as nat) + splits[n - 1].footer_offsets.end as nat
    }
}

proof fn lemma_totals_grow(splits: Seq<SplitMetadata>, i: nat, n: nat)
    requires
        i <= n <= splits.len(),
    ensures
        docs_in(splits, i) <= docs_in(splits, n),
        bytes_in(splits, i) <= bytes_in(splits, n),
    decreases n - i,
{
    if i < n {
        lemma_totals_grow(splits, i, (n - 1) as nat);
    }
}

/// What a publication is reported with: its splits, their documents and their bytes.
pub fn record_published<D, T>(update: &SplitUpdate<SplitMetadata, D, T>) -> (totals: (
    usize,
    usize,
    u64,
))
    requires
        docs_in(update.new_splits@, update.new_splits@.len()) <= usize::MAX,
        bytes_in(update.new_splits@, update.new_splits@.len()) <= u64::MAX,
    ensures
        totals.0 == update.new_splits@.len(),
        totals.1 == docs_in(update.new_splits@, update.new_splits@.len()),
        totals.2 == bytes_in(update.new_splits@, update.new_splits@.len()),
{
    let mut num_docs: usize = 0;
    let mut num_bytes: u64 = 0;
    for i in 0..update.new_splits.len()
        invariant
            docs_in(update.new_splits@, update.new_splits@.len()) <= usize::MAX,
            bytes_in(update.new_splits@, update.new_splits@.len()) <= u64::MAX,
            num_docs == docs_in(update.new_splits@, i as nat),
            num_bytes == bytes_in(update.new_splits@, i as nat),
    {
        proof {
            lemma_totals_grow(update.new_splits@, (i + 1) as nat, update.new_splits@.len());
        }
        num_docs = num_docs + update.new_splits[i].num_docs;
        num_bytes = num_bytes + update.new_splits[i].footer_offsets.end;
    }
    (update.new_splits.len(), num_docs, num_bytes)
}

/// What a split's file says of the split is what the metastore knows of it, and which splits it was
/// merged from.
pub proof fn recovery_tells_everything_of_a_split(
    recovery: SplitRecoveryMetadata,
    split: SplitMetadata,
    parents: Seq<Seq<char>>,
)
    requires
        recovers(recovery, split, parents),
    ensures
        recovery.split_id@ == split.split_id@,
        recovery.index_uid@ == split.index_uid@,
        recovery.source_id@ == split.source_id@,
        recovery.node_id@ == split.node_id@,
        recovery.doc_mapping_uid == split.doc_mapping_uid,
        recovery.partition_id == split.partition_id,
        recovery.num_docs == split.num_docs,
        recovery.uncompressed_docs_size_bytes == split.uncompressed_docs_size_in_bytes,
        split.time_range is None ==> recovery.time_range_start_inclusive is None
            && recovery.time_range_end_inclusive is None,
        split.time_range matches Some(range) ==> recovery.time_range_start_inclusive == Some(
            range.start,
        ) && recovery.time_range_end_inclusive == Some(range.end),
        recovery.create_timestamp == split.create_timestamp,
        path::texts(recovery.tags@) == path::texts(split.tags@),
        recovery.delete_opstamp == split.delete_opstamp,
        recovery.num_merge_ops == split.num_merge_ops,
        path::texts(recovery.parent_split_ids@) == parents,
        recovery.maturation_period_millis is None <==> split.maturity is Mature,
{
}

/// A maturation period is told in whole milliseconds, never more than it has, and is read back as those.
pub proof fn maturation_is_told_in_milliseconds(
    split: SplitMetadata,
    nanos: u128,
    recovery: SplitRecoveryMetadata,
)
    ensures
        maturation_millis(SplitMaturity::Mature) is None,
        maturation_millis(SplitMaturity::Immature { maturation_period_nanos: nanos }) matches Some(
            millis,
        ) && millis * 1_000_000 <= nanos < (millis + 1) * 1_000_000,
        recovery.maturation_period_millis is None ==> recovered_maturity(recovery) is Mature,
        recovery.maturation_period_millis matches Some(millis) ==> recovered_maturity(recovery)
            == (SplitMaturity::Immature { maturation_period_nanos: (millis * 1_000_000) as u128 }),
{
}

/// A split is replaced exactly if one of the packaged splits replaces it.
pub proof fn replaced_splits_are_those_of_all(
    splits: Seq<PackagedSplit>,
    n: int,
    id: Seq<char>,
    i: int,
    j: int,
)
    requires
        0 <= n < splits.len(),
    ensures
        0 <= i < n && 0 <= j < splits[i].replaced_split_ids@.len() ==> is_replaced(
            splits,
            n,
            splits[i].replaced_split_ids@[j]@,
        ),
        !is_replaced(splits, 0, id),
        is_replaced(splits, n + 1, id) <==> is_replaced(splits, n, id) || path::texts(
            splits[n].replaced_split_ids@,
        ).contains(id),
{
    if 0 <= i < n && 0 <= j < splits[i].replaced_split_ids@.len() {
        let ids = path::texts(splits[i].replaced_split_ids@);
        assert(ids[j] == splits[i].replaced_split_ids@[j]@);
    }
    if path::texts(splits[n].replaced_split_ids@).contains(id) {
        assert(is_replaced(splits, n + 1, id));
    }
    if is_replaced(splits, n, id) {
        let k = choose|k: int|
            0 <= k < n && path::texts((#[trigger] splits[k]).replaced_split_ids@).contains(id);
        assert(path::texts(splits[k].replaced_split_ids@).contains(id));
    }
}

/// Splits are named one by one, and their documents and bytes add up: a split has the bytes up to the
/// end of its footer.
pub proof fn splits_add_up(splits: Seq<SplitMetadata>, n: nat)
    requires
        n < splits.len(),
    ensures
        split_ids(splits).len() == splits.len(),
        split_ids(splits)[n as int] == splits[n as int].split_id@,
        docs_in(splits, 0) == 0,
        bytes_in(splits, 0) == 0,
        docs_in(splits, n + 1) == docs_in(splits, n) + splits[n as int].num_docs,
        bytes_in(splits, n + 1) == bytes_in(splits, n) + splits[n as int].footer_offsets.end,
{
}

} // verus!
