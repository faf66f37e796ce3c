//! The Parquet engine's part in publication, upload, deletion and pipeline construction.

use vstd::prelude::*;

use crate::path;
use crate::publisher::SplitUpdate;
use crate::supervisor::DrainMessage;
use crate::text::same_text;

verus! {

/// What a Parquet split holds.
#[derive(Clone, Copy, Debug, PartialEq, Eq, Structural)]
pub enum ParquetSplitKind {
    Metrics,
    Sketches,
}

/// The engine of an index.
#[derive(Clone, Copy, Debug, PartialEq, Eq, Structural)]
pub enum IndexType {
    Tantivy,
    Metrics,
    Sketches,
}

/// The kind of splits that an index holds, if the Parquet engine stores them.
pub open spec fn split_kind(index_type: IndexType) -> Option<ParquetSplitKind> {
    match index_type {
        IndexType::Tantivy => None,
        IndexType::Metrics => Some(ParquetSplitKind::Metrics),
        IndexType::Sketches => Some(ParquetSplitKind::Sketches),
    }
}

/// The kind of splits that an index holds, if the Parquet engine stores them.
pub fn parquet_split_kind(index_type: IndexType) -> (kind: Option<ParquetSplitKind>)
    ensures
        kind == split_kind(index_type),
{
    match index_type {
        IndexType::Tantivy => None,
        IndexType::Metrics => Some(ParquetSplitKind::Metrics),
        IndexType::Sketches => Some(ParquetSplitKind::Sketches),
    }
}

/// Whether merges still take a split up, and for how long.
#[derive(Clone, Copy, Debug, PartialEq, Eq, Structural)]
pub enum ParquetSplitMaturity {
    Mature,
    Immature { maturation_period_nanos: u128 },
}

/// A range of seconds, the end excluded.
#[derive(Clone, Copy, Debug, PartialEq, Eq, Structural)]
pub struct Window {
    pub start: i64,
    pub end: i64,
}

/// The metadata of a Parquet split, as far as decisions depend on it.
#[derive(Debug)]
pub struct ParquetSplitMetadata {
    pub split_id: String,
    pub index_uid: String,
    pub kind: ParquetSplitKind,
    pub num_rows: u64,
    pub size_bytes: u64,
    pub num_merge_ops: u32,
    pub start_secs: u64,
    pub end_secs: u64,
    pub window: Option<Window>,
    pub maturity: ParquetSplitMaturity,
}

/// The ids of splits.
pub open spec fn split_ids(splits: Seq<ParquetSplitMetadata>) -> Seq<Seq<char>> {
    Seq::new(splits.len(), |i: int| splits[i].split_id@)
}

/// The ids of splits, in their order.
pub fn list_split_ids(splits: &Vec<ParquetSplitMetadata>) -> (ids: Vec<String>)
    ensures
        path::texts(ids@) == split_ids(splits@),
{
    let mut ids: Vec<String> = Vec::new();
    for i in 0..splits.len()
        invariant
            ids@.len() == i,
            forall|j: int| 0 <= j < i ==> (#[trigger] ids@[j])@ == splits@[j].split_id@,
    {
        ids.push(splits[i].split_id.clone());
    }
    assert(path::texts(ids@) =~= split_ids(splits@));
    ids
}

/// The window of a split: its own, or else the seconds that it covers.
pub open spec fn window_of(split: ParquetSplitMetadata) -> Window {
    match split.window {
        Some(window) => window,
        None => Window { start: split.start_secs as i64, end: split.end_secs as i64 },
    }
}

fn split_window(split: &ParquetSplitMetadata) -> (window: Window)
    ensures
        window == window_of(*split),
{
    match split.window {
        Some(window) => window,
        None => Window { start: split.start_secs as i64, end: split.end_secs as i64 },
    }
}

// ---- Publication ----

/// Whether a split is one of those that a publication of an index and kind may hold.
pub open spec fn belongs(split: ParquetSplitMetadata, kind: ParquetSplitKind, index_uid: Seq<char>) -> bool {
    split.kind == kind && split.index_uid@ == index_uid
}

/// Checks that the splits of a publication are of its index, and of the engine's kind.
pub fn validate<D, T>(kind: ParquetSplitKind, update: &SplitUpdate<ParquetSplitMetadata, D, T>) -> (validated:
    Result<(), String>)
    ensures
        validated is Ok <==> forall|i: int|
            0 <= i < update.new_splits@.len() ==> belongs(
                #[trigger] update.new_splits@[i],
                kind,
                update.index_uid@,
            ),
        validated is Err ==> validated->Err_0@
            == "split identity does not match the Parquet publication"@,
{
    for i in 0..update.new_splits.len()
        invariant
            forall|j: int|
                0 <= j < i ==> belongs(
                    #[trigger] update.new_splits@[j],
                    kind,
                    update.index_uid@,
                ),
    {
        let split = &update.new_splits[i];
        if split.kind != kind || !same_text(split.index_uid.as_str(), update.index_uid.as_str()) {
            assert(!belongs(update.new_splits@[i as int], kind, update.index_uid@));
            return Err("split identity does not match the Parquet publication".to_owned());
        }
    }
    Ok(())
}

/// A request to publish splits that were staged, in place of others.
pub struct ParquetPublication<D> {
    pub staged_split_ids: Vec<String>,
    pub replaced_split_ids: Vec<String>,
    pub checkpoint_delta: Option<D>,
    pub publish_token: Option<String>,
}

/// The request that publishes an update, with a copy of its checkpoint delta.
pub fn publication<D: Clone, T>(
    update: &SplitUpdate<ParquetSplitMetadata, D, T>,
    publish_token: Option<String>,
) -> (request: ParquetPublication<D>)
    ensures
        path::texts(request.staged_split_ids@) == split_ids(update.new_splits@),
        path::texts(request.replaced_split_ids@) == path::texts(update.replaced_split_ids@),
        match (update.checkpoint_delta_opt, request.checkpoint_delta) {
            (Some(delta), Some(copy)) => cloned(delta, copy),
            (None, None) => true,
            _ => false,
        },
        request.publish_token == publish_token,
{
    let checkpoint_delta = match &update.checkpoint_delta_opt {
        Some(delta) => Some(delta.clone()),
        None => None,
    };
    ParquetPublication {
        staged_split_ids: list_split_ids(&update.new_splits),
        replaced_split_ids: crate::pipeline::copy_texts(&update.replaced_split_ids),
        checkpoint_delta,
        publish_token,
    }
}

/// Something that happens to the splits of a merge pipeline.
#[derive(Debug)]
pub enum MergePipelineEvent {
    /// A split that was ingested is published.
    IngestSplit { index_uid: String, split_id: String, num_rows: u64, window: Window },
    /// The output of a merge is stored.
    UploadMergeOutput {
        index_uid: String,
        merge_id: String,
        output_split_id: String,
        output_num_rows: u64,
        output_window: Window,
        output_merge_ops: u32,
    },
    /// The output of a merge is published, in place of its inputs.
    PublishMergeAndFeedback {
        index_uid: String,
        merge_id: String,
        output_split_id: String,
        replaced_split_ids: Vec<String>,
        output_window: Window,
        output_merge_ops: u32,
    },
    /// A merge pipeline starts over with these splits.
    Restart { index_uid: String, re_seeded_immature_split_ids: Vec<String> },
    /// The publisher no longer tells the planner of new splits.
    DisconnectMergePlanner { index_uid: String },
    /// The planner runs its last merges, and quits.
    RunFinalizeAndQuit { index_uid: String, finalize_merges_emitted: usize },
}

/// The event of a merge pipeline that starts over with immature splits.
pub fn record_restart(index_uid: &String, splits: &Vec<ParquetSplitMetadata>) -> (event:
    MergePipelineEvent)
    ensures
        match event {
            MergePipelineEvent::Restart { index_uid: uid, re_seeded_immature_split_ids } => {
                &&& uid@ == index_uid@
                &&& path::texts(re_seeded_immature_split_ids@) == split_ids(splits@)
            },
            _ => false,
        },
{
    MergePipelineEvent::Restart {
        index_uid: index_uid.clone(),
        re_seeded_immature_split_ids: list_split_ids(splits),
    }
}

/// The event of a drain message that was sent.
pub fn record_drained(index_uid: &String, message: DrainMessage) -> (event: MergePipelineEvent)
    ensures
        match (message, event) {
            (
                DrainMessage::DisconnectMergePlanner,
                MergePipelineEvent::DisconnectMergePlanner { index_uid: uid },
            ) => uid@ == index_uid@,
            (
                DrainMessage::RunFinalizeMergePolicyAndQuit,
                MergePipelineEvent::RunFinalizeAndQuit { index_uid: uid, finalize_merges_emitted },
            ) => uid@ == index_uid@ && finalize_merges_emitted == 0,
            _ => false,
        },
{
    match message {
        DrainMessage::DisconnectMergePlanner => MergePipelineEvent::DisconnectMergePlanner {
            index_uid: index_uid.clone(),
        },
        DrainMessage::RunFinalizeMergePolicyAndQuit => MergePipelineEvent::RunFinalizeAndQuit {
            index_uid: index_uid.clone(),
            finalize_merges_emitted: 0,
        },
    }
}

/// Whether an event tells that a split was published.
pub open spec fn tells_of_publication(
    event: MergePipelineEvent,
    index_uid: Seq<char>,
    split: ParquetSplitMetadata,
    replaced: Seq<Seq<char>>,
) -> bool {
    if replaced.len() == 0 {
        match event {
            MergePipelineEvent::IngestSplit { index_uid: uid, split_id, num_rows, window } => {
                &&& uid@ == index_uid
                &&& split_id@ == split.split_id@
                &&& num_rows == split.num_rows
                &&& window == window_of(split)
            },
            _ => false,
        }
    } else {
        match event {
            MergePipelineEvent::PublishMergeAndFeedback {
                index_uid: uid,
                merge_id,
                output_split_id,
                replaced_split_ids,
                output_window,
                output_merge_ops,
            } => {
                &&& uid@ == index_uid
                &&& merge_id@ == split.split_id@
                &&& output_split_id@ == split.split_id@
                &&& path::texts(replaced_split_ids@) == replaced
                &&& output_window == window_of(split)
                &&& output_merge_ops == split.num_merge_ops
            },
            _ => false,
        }
    }
}

/// The events of a publication, one for each of its splits: that it was ingested, or that it
/// replaces others.
pub fn record_published<D, T>(update: &SplitUpdate<ParquetSplitMetadata, D, T>) -> (events: Vec<
    MergePipelineEvent,
>)
    ensures
        events@.len() == update.new_splits@.len(),
        forall|i: int|
            0 <= i < events@.len() ==> tells_of_publication(
                #[trigger] events@[i],
                update.index_uid@,
                update.new_splits@[i],
                path::texts(update.replaced_split_ids@),
            ),
{
    let mut events: Vec<MergePipelineEvent> = Vec::new();
    for i in 0..update.new_splits.len()
        invariant
            events@.len() == i,
            forall|j: int|
                0 <= j < i ==> tells_of_publication(
                    #[trigger] events@[j],
                    update.index_uid@,
                    update.new_splits@[j],
                    path::texts(update.replaced_split_ids@),
                ),
    {
        let split = &update.new_splits[i];
        let window = split_window(split);
        let event = if update.replaced_split_ids.len() == 0 {
            MergePipelineEvent::IngestSplit {
                index_uid: update.index_uid.clone(),
                split_id: split.split_id.clone(),
                num_rows: split.num_rows,
                window,
            }
        } else {
            MergePipelineEvent::PublishMergeAndFeedback {
                index_uid: update.index_uid.clone(),
                merge_id: split.split_id.clone(),
                output_split_id: split.split_id.clone(),
                replaced_split_ids: crate::pipeline::copy_texts(&update.replaced_split_ids),
                output_window: window,
                output_merge_ops: split.num_merge_ops,
            }
        };
        events.push(event);
    }
    events
}

// ---- Upload ----

/// Splits on their way to the store.
pub struct ParquetSplitBatch<D, T> {
    pub index_uid: String,
    pub splits: Vec<ParquetSplitMetadata>,
    pub replaced_split_ids: Vec<String>,
    pub checkpoint_delta_opt: Option<D>,
    pub merge_task: Option<T>,
}

/// A split with another maturity.
pub open spec fn with_maturity(split: ParquetSplitMetadata, maturity: ParquetSplitMaturity) -> ParquetSplitMetadata {
    ParquetSplitMetadata { maturity, ..split }
}

/// Gives each split the maturity that the merge policy says it has.
pub fn prepare<D, T>(
    batch: ParquetSplitBatch<D, T>,
    maturities: &Vec<ParquetSplitMaturity>,
) -> (prepared: ParquetSplitBatch<D, T>)
    requires
        maturities@.len() == batch.splits@.len(),
    ensures
        prepared.splits@ == Seq::new(
            batch.splits@.len(),
            |i: int| with_maturity(batch.splits@[i], maturities@[i]),
        ),
        prepared.index_uid == batch.index_uid,
        prepared.replaced_split_ids == batch.replaced_split_ids,
        prepared.checkpoint_delta_opt == batch.checkpoint_delta_opt,
        prepared.merge_task == batch.merge_task,
{
    let mut prepared = batch;
    let ghost splits = batch.splits@;
    let mut i: usize = 0;
    while i < maturities.len()
        invariant
            i <= maturities@.len(),
            maturities@.len() == splits.len(),
            prepared.splits@.len() == splits.len(),
            forall|j: int|
                0 <= j < i ==> #[trigger] prepared.splits@[j] == with_maturity(
                    splits[j],
                    maturities@[j],
                ),
            forall|j: int| i <= j < splits.len() ==> #[trigger] prepared.splits@[j] == splits[j],
            prepared.index_uid == batch.index_uid,
            prepared.replaced_split_ids == batch.replaced_split_ids,
            prepared.checkpoint_delta_opt == batch.checkpoint_delta_opt,
            prepared.merge_task == batch.merge_task,
        decreases maturities@.len() - i,
    {
        prepared.splits[i].maturity = maturities[i];
        i = i + 1;
    }
    assert(prepared.splits@ =~= Seq::new(
        splits.len(),
        |i: int| with_maturity(splits[i], maturities@[i]),
    ));
    prepared
}

/// The kind under which the splits of a batch are staged: that of the first. There must be one.
pub fn stage_kind(splits: &Vec<ParquetSplitMetadata>) -> (kind: Result<ParquetSplitKind, String>)
    ensures
        match kind {
            Ok(kind) => splits@.len() > 0 && kind == splits@[0].kind,
            Err(error) => splits@.len() == 0 && error@
                == "empty batch must use checkpoint-only delivery"@,
        },
{
    if splits.len() == 0 {
        return Err("empty batch must use checkpoint-only delivery".to_owned());
    }
    Ok(splits[0].kind)
}

/// Whether an event tells that the output of a merge was stored.
pub open spec fn tells_of_upload(
    event: MergePipelineEvent,
    index_uid: Seq<char>,
    split: ParquetSplitMetadata,
) -> bool {
    match event {
        MergePipelineEvent::UploadMergeOutput {
            index_uid: uid,
            merge_id,
            output_split_id,
            output_num_rows,
            output_window,
            output_merge_ops,
        } => {
            &&& uid@ == index_uid
            &&& merge_id@ == split.split_id@
            &&& output_split_id@ == split.split_id@
            &&& output_num_rows == split.num_rows
            &&& output_window == window_of(split)
            &&& output_merge_ops == split.num_merge_ops
        },
        _ => false,
    }
}

/// The events of a batch that was stored: one for each split of a merge, none for ingested splits.
pub fn record_uploaded<D, T>(batch: &ParquetSplitBatch<D, T>) -> (events: Vec<MergePipelineEvent>)
    ensures
        events@.len() == if batch.replaced_split_ids@.len() == 0 {
            0
        } else {
            batch.splits@.len()
        },
        forall|i: int|
            0 <= i < events@.len() ==> tells_of_upload(
                #[trigger] events@[i],
                batch.index_uid@,
                batch.splits@[i],
            ),
{
    let mut events: Vec<MergePipelineEvent> = Vec::new();
    if batch.replaced_split_ids.len() == 0 {
        return events;
    }
    for i in 0..batch.splits.len()
        invariant
            events@.len() == i,
            forall|j: int|
                0 <= j < i ==> tells_of_upload(
                    #[trigger] events@[j],
                    batch.index_uid@,
                    batch.splits@[j],
                ),
    {
        let split = &batch.splits[i];
        events.push(
            MergePipelineEvent::UploadMergeOutput {
                index_uid: batch.index_uid.clone(),
                merge_id: split.split_id.clone(),
                output_split_id: split.split_id.clone(),
                output_num_rows: split.num_rows,
                output_window: split_window(split),
                output_merge_ops: split.num_merge_ops,
            },
        );
    }
    events
}

/// The publication of a batch: all of it goes on, the merge task included. A batch without splits
/// is published without an upload, for its checkpoint.
pub fn into_update<D, T>(batch: ParquetSplitBatch<D, T>) -> (update: SplitUpdate<
    ParquetSplitMetadata,
    D,
    T,
>)
    ensures
        update.index_uid == batch.index_uid,
        update.new_splits == batch.splits,
        update.replaced_split_ids == batch.replaced_split_ids,
        update.checkpoint_delta_opt == batch.checkpoint_delta_opt,
        update.merge_task == batch.merge_task,
{
    SplitUpdate {
        index_uid: batch.index_uid,
        new_splits: batch.splits,
        replaced_split_ids: batch.replaced_split_ids,
        checkpoint_delta_opt: batch.checkpoint_delta_opt,
        merge_task: batch.merge_task,
    }
}

/// Whether a batch has to be uploaded before it is published.
pub fn needs_upload<D, T>(batch: &ParquetSplitBatch<D, T>) -> (needed: bool)
    ensures
        needed == (batch.splits@.len() > 0),
{
    batch.splits.len() > 0
}

// ---- Deletion of an index's splits ----

/// A split that was deleted, or would be.
#[derive(Debug)]
pub struct SplitInfo {
    pub split_id: String,
    pub num_docs: u64,
    pub file_size_bytes: u64,
}

/// The text that formatting a list of texts for debugging gives.
pub uninterp spec fn debug_list(list: Seq<Seq<char>>) -> Seq<char>;

/// `std::format!` of a list of strings with `{:?}`: the text depends on the strings alone.
#[verifier::external_body]
fn format_debug_list(list: &Vec<String>) -> (formatted: String)
    ensures
        formatted@ == debug_list(path::texts(list@)),
{
    format!("{:?}", list)
}

/// Where a split stands in its life.
#[derive(Clone, Copy, Debug, PartialEq, Eq, Structural)]
pub enum SplitState {
    Staged,
    Published,
    MarkedForDeletion,
}

/// The states of the splits that the deletion of an index lists: all of them, those included that an
/// interrupted cleanup left marked.
pub fn deleted_split_states() -> (states: Vec<SplitState>)
    ensures
        states@ == seq![SplitState::Staged, SplitState::Published, SplitState::MarkedForDeletion],
        forall|state: SplitState| #[trigger] states@.contains(state),
{
    let mut states: Vec<SplitState> = Vec::new();
    states.push(SplitState::Staged);
    states.push(SplitState::Published);
    states.push(SplitState::MarkedForDeletion);
    assert forall|state: SplitState| #[trigger] states@.contains(state) by {
        match state {
            SplitState::Staged => assert(states@[0] == state),
            SplitState::Published => assert(states@[1] == state),
            SplitState::MarkedForDeletion => assert(states@[2] == state),
        }
    }
    states
}

/// Deletes all the splits of an index, page by page, those included that an interrupted cleanup
/// left marked. Index metadata and checkpoints must only be removed or reset after this succeeds.
pub struct SplitDeletion {
    pub dry_run: bool,
    /// What was deleted so far, or would have been.
    pub deleted: Vec<SplitInfo>,
}

/// What to do about a page.
#[derive(Debug)]
pub enum PageStep {
    /// Mark these splits for deletion and delete them, then go on.
    Delete(Vec<String>),
    /// Go on.
    Skip,
}

/// What comes after a page.
#[derive(Debug)]
pub enum NextPage {
    /// List the next page.
    List,
    /// All pages are done.
    Done,
    /// Splits could not be deleted: index metadata and checkpoints are kept, and the deletion can
    /// be tried again.
    Failed(String),
}

/// The ids of listed splits.
pub open spec fn info_ids(splits: Seq<SplitInfo>) -> Seq<Seq<char>> {
    Seq::new(splits.len(), |i: int| splits[i].split_id@)
}

/// The ids of a page that are marked and deleted: none in a dry run.
pub open spec fn ids_to_delete(dry_run: bool, page: Seq<SplitInfo>) -> Seq<Seq<char>> {
    if dry_run {
        seq![]
    } else {
        info_ids(page)
    }
}

/// The ids that are marked and deleted of the first `n` pages.
pub open spec fn all_ids_to_delete(
    dry_run: bool,
    pages: Seq<Seq<SplitInfo>>,
    n: nat,
) -> Seq<Seq<char>>
    decreases n,
{
    if n == 0 {
        seq![]
    } else {
        all_ids_to_delete(dry_run, pages, (n - 1) as nat) + ids_to_delete(dry_run, pages[n - 1])
    }
}

/// The splits of the first `n` pages.
pub open spec fn all_listed(pages: Seq<Seq<SplitInfo>>, n: nat) -> Seq<SplitInfo>
    decreases n,
{
    if n == 0 {
        seq![]
    } else {
        all_listed(pages, (n - 1) as nat) + pages[n - 1]
    }
}

/// Whether closing a page takes a deletion on from what it has returned so far.
pub open spec fn closes_page(
    before: Seq<SplitInfo>,
    after: Seq<SplitInfo>,
    page: Seq<SplitInfo>,
    failed: Seq<Seq<char>>,
    has_next_page: bool,
    next: NextPage,
) -> bool {
    match next {
        NextPage::Failed(error) => {
            &&& failed.len() > 0
            &&& after == before
            &&& error@ == "failed to delete Parquet splits: "@ + debug_list(failed)
                + "; index metadata and checkpoints retained for retry"@
        },
        NextPage::List => failed.len() == 0 && has_next_page && after == before + page,
        NextPage::Done => failed.len() == 0 && !has_next_page && after == before + page,
    }
}

impl SplitDeletion {
    /// Nothing is deleted yet.
    pub fn new(dry_run: bool) -> (deletion: Self)
        ensures
            deletion.dry_run == dry_run,
            deletion.deleted@ == Seq::<SplitInfo>::empty(),
    {
        SplitDeletion { dry_run, deleted: Vec::new() }
    }

    /// Decides about a page: a dry run deletes nothing.
    pub fn on_page(&self, page: &Vec<SplitInfo>) -> (step: PageStep)
        ensures
            match step {
                PageStep::Delete(ids) => ids@.len() > 0 && path::texts(ids@) == ids_to_delete(
                    self.dry_run,
                    page@,
                ),
                PageStep::Skip => ids_to_delete(self.dry_run, page@).len() == 0,
            },
    {
        if self.dry_run || page.len() == 0 {
            return PageStep::Skip;
        }
        let mut ids: Vec<String> = Vec::new();
        for i in 0..page.len()
            invariant
                ids@.len() == i,
                forall|j: int| 0 <= j < i ==> (#[trigger] ids@[j])@ == page@[j].split_id@,
        {
            ids.push(page[i].split_id.clone());
        }
        assert(path::texts(ids@) =~= info_ids(page@));
        PageStep::Delete(ids)
    }

    /// Closes a page, given the splits that could not be deleted.
    pub fn page_done(&mut self, page: Vec<SplitInfo>, failed: &Vec<String>, has_next_page: bool) -> (next:
        NextPage)
        ensures
            final(self).dry_run == old(self).dry_run,
            closes_page(
                old(self).deleted@,
                final(self).deleted@,
                page@,
                path::texts(failed@),
                has_next_page,
                next,
            ),
    {
        if failed.len() > 0 {
            let mut error = "failed to delete Parquet splits: ".to_owned();
            error.append(format_debug_list(failed).as_str());
            error.append("; index metadata and checkpoints retained for retry");
            return NextPage::Failed(error);
        }
        let mut page = page;
        self.deleted.append(&mut page);
        if has_next_page {
            NextPage::List
        } else {
            NextPage::Done
        }
    }
}

/// A deletion that goes through all its pages returns every split that was listed, in order, and
/// nothing else. It has deleted exactly those, unless it is a dry run, which deletes none.
/// `returned` is what the deletion has returned before each page, and after the last.
pub proof fn every_listed_split_is_returned(
    dry_run: bool,
    pages: Seq<Seq<SplitInfo>>,
    failed: Seq<Seq<Seq<char>>>,
    steps: Seq<NextPage>,
    returned: Seq<Seq<SplitInfo>>,
)
    requires
        pages.len() > 0,
        failed.len() == pages.len(),
        steps.len() == pages.len(),
        returned.len() == pages.len() + 1,
        returned[0] == Seq::<SplitInfo>::empty(),
        forall|i: int|
            0 <= i < pages.len() ==> closes_page(
                returned[i],
                returned[i + 1],
                pages[i],
                failed[i],
                i < pages.len() - 1,
                #[trigger] steps[i],
            ),
        steps.last() is Done,
        forall|i: int| 0 <= i < pages.len() - 1 ==> (#[trigger] steps[i]) is List,
    ensures
        returned.last() == all_listed(pages, pages.len()),
        all_ids_to_delete(dry_run, pages, pages.len()) == ids_to_delete(dry_run, returned.last()),
{
    lemma_pages_add_up(dry_run, pages, failed, steps, returned, pages.len());
}

proof fn lemma_pages_add_up(
    dry_run: bool,
    pages: Seq<Seq<SplitInfo>>,
    failed: Seq<Seq<Seq<char>>>,
    steps: Seq<NextPage>,
    returned: Seq<Seq<SplitInfo>>,
    n: nat,
)
    requires
        n <= pages.len(),
        failed.len() == pages.len(),
        steps.len() == pages.len(),
        returned.len() == pages.len() + 1,
        returned[0] == Seq::<SplitInfo>::empty(),
        forall|i: int|
            0 <= i < pages.len() ==> closes_page(
                returned[i],
                returned[i + 1],
                pages[i],
                failed[i],
                i < pages.len() - 1,
                #[trigger] steps[i],
            ),
        forall|i: int| 0 <= i < pages.len() ==> !((#[trigger] steps[i]) is Failed),
    ensures
        returned[n as int] == all_listed(pages, n),
        all_ids_to_delete(dry_run, pages, n) == ids_to_delete(dry_run, all_listed(pages, n)),
    decreases n,
{
    if n == 0 {
        assert(ids_to_delete(dry_run, all_listed(pages, 0)) =~= seq![]);
    } else {
        let i = n - 1;
        lemma_pages_add_up(dry_run, pages, failed, steps, returned, (n - 1) as nat);
        assert(!(steps[i] is Failed));
        assert(ids_to_delete(dry_run, all_listed(pages, n)) =~= ids_to_delete(
            dry_run,
            all_listed(pages, (n - 1) as nat),
        ) + ids_to_delete(dry_run, pages[i]));
    }
}

// ---- Resolution of an index ----

/// What the metastore replies when asked for the metadata of an index.
pub enum IndexMetadataReply {
    Found { index_uid: String, index_uri: String, index_type: IndexType },
    NotFound,
    Failed(String),
}

/// A resolved Parquet index.
#[derive(Debug)]
pub struct ResolvedParquetIndex {
    pub index_uid: String,
    pub index_uri: String,
    pub split_kind: ParquetSplitKind,
}

/// The index to scan: none if it does not exist, or is not a Parquet index. Its type decides, not
/// its name; only an index that is not found is no error.
pub fn resolve(reply: IndexMetadataReply) -> (resolved: Result<Option<ResolvedParquetIndex>, String>)
    ensures
        match reply {
            IndexMetadataReply::NotFound => resolved == Ok::<
                Option<ResolvedParquetIndex>,
                String,
            >(None),
            IndexMetadataReply::Failed(error) => resolved == Err::<
                Option<ResolvedParquetIndex>,
                String,
            >(error),
            IndexMetadataReply::Found { index_uid, index_uri, index_type } => resolved == Ok::<
                Option<ResolvedParquetIndex>,
                String,
            >(
                match split_kind(index_type) {
                    None => None,
                    Some(split_kind) => Some(
                        (ResolvedParquetIndex { index_uid, index_uri, split_kind }),
                    ),
                },
            ),
        },
{
    match reply {
        IndexMetadataReply::NotFound => Ok(None),
        IndexMetadataReply::Failed(error) => Err(error),
        IndexMetadataReply::Found { index_uid, index_uri, index_type } => {
            match parquet_split_kind(index_type) {
                None => Ok(None),
                Some(split_kind) => Ok(
                    Some(ResolvedParquetIndex { index_uid, index_uri, split_kind }),
                ),
            }
        },
    }
}

/// An index, by its name and type.
pub struct ListedIndex {
    pub index_id: String,
    pub index_type: IndexType,
}

/// The names of the Parquet indexes among the first `n`.
pub open spec fn parquet_names(indexes: Seq<ListedIndex>, n: nat) -> Seq<Seq<char>>
    decreases n,
{
    if n == 0 {
        seq![]
    } else if split_kind(indexes[n - 1].index_type) is Some {
        parquet_names(indexes, (n - 1) as nat).push(indexes[n - 1].index_id@)
    } else {
        parquet_names(indexes, (n - 1) as nat)
    }
}

/// Names of the Parquet (metrics / sketches) indexes.
pub fn list_parquet_index_names(indexes: &Vec<ListedIndex>) -> (names: Vec<String>)
    ensures
        path::texts(names@) == parquet_names(indexes@, indexes@.len()),
{
    let mut names: Vec<String> = Vec::new();
    assert(path::texts(names@) =~= Seq::<Seq<char>>::empty());
    for i in 0..indexes.len()
        invariant
            path::texts(names@) == parquet_names(indexes@, i as nat),
    {
        let ghost before = names@;
        if parquet_split_kind(indexes[i].index_type).is_some() {
            names.push(indexes[i].index_id.clone());
            assert(path::texts(names@) =~= path::texts(before).push(indexes@[i as int].index_id@));
        }
    }
    names
}

// ---- Construction of an indexing pipeline ----

/// The parts of a Parquet indexing pipeline that have to be set up first, in their order.
#[derive(Clone, Copy, Debug, PartialEq, Eq, Structural)]
pub enum PipelinePart {
    IndexingDirectory,
    Storage,
    PartitionKey,
}

/// The error of a pipeline that a part could not be set up for.
pub fn pipeline_error(part: PipelinePart, error: &str) -> (text: String)
    ensures
        text@ == match part {
            PipelinePart::IndexingDirectory => "failed to create indexing directory: "@,
            PipelinePart::Storage => "failed to spawn metrics pipeline: "@,
            PipelinePart::PartitionKey => "failed to parse partition_key: "@,
        } + error@,
{
    let mut text = match part {
        PipelinePart::IndexingDirectory => "failed to create indexing directory: ".to_owned(),
        PipelinePart::Storage => "failed to spawn metrics pipeline: ".to_owned(),
        PipelinePart::PartitionKey => "failed to parse partition_key: ".to_owned(),
    };
    text.append(error);
    text
}

/// The directories below the indexing root that a pipeline works in, outermost first.
pub fn indexing_directory(
    index_id: String,
    incarnation_id: String,
    source_id: String,
    pipeline_uid: String,
) -> (directories: Vec<String>)
    ensures
        path::texts(directories@) == seq![index_id@, incarnation_id@, source_id@, pipeline_uid@],
{
    let mut directories: Vec<String> = Vec::new();
    directories.push(index_id);
    directories.push(incarnation_id);
    directories.push(source_id);
    directories.push(pipeline_uid);
    assert(path::texts(directories@) =~= seq![
        index_id@,
        incarnation_id@,
        source_id@,
        pipeline_uid@,
    ]);
    directories
}

/// The expression that routes documents to partitions: empty where an index has none.
pub fn partition_key(configured: Option<String>) -> (key: String)
    ensures
        key@ == match configured {
            Some(key) => key@,
            None => Seq::<char>::empty(),
        },
{
    match configured {
        Some(key) => key,
        None => String::new(),
    }
}

/// The indexes of metrics and of sketches are kept in Parquet splits of their kind, and Tantivy indexes
/// in none.
pub proof fn kinds_of_splits_differ(index_type: IndexType, other: IndexType)
    ensures
        split_kind(index_type) is None <==> index_type is Tantivy,
        split_kind(index_type) == split_kind(other) <==> index_type == other,
        index_type is Metrics ==> split_kind(index_type)->0 is Metrics,
        index_type is Sketches ==> split_kind(index_type)->0 is Sketches,
{
}

/// Splits are named one by one, each by its own id.
pub proof fn splits_are_named_one_by_one(
    splits: Seq<ParquetSplitMetadata>,
    infos: Seq<SplitInfo>,
    i: int,
)
    ensures
        split_ids(splits).len() == splits.len(),
        info_ids(infos).len() == infos.len(),
        0 <= i < splits.len() ==> split_ids(splits)[i] == splits[i].split_id@,
        0 <= i < infos.len() ==> info_ids(infos)[i] == infos[i].split_id@,
{
}

/// A split belongs to a publication exactly if it is of its kind and of its index.
pub proof fn splits_belong_to_their_index(
    split: ParquetSplitMetadata,
    kind: ParquetSplitKind,
    index_uid: Seq<char>,
)
    ensures
        belongs(split, split.kind, split.index_uid@),
        kind != split.kind ==> !belongs(split, kind, index_uid),
        index_uid != split.index_uid@ ==> !belongs(split, kind, index_uid),
{
}

/// The window of a split is its own, if it has one, and otherwise spans its times.
pub proof fn windows_span_the_times_of_a_split(split: ParquetSplitMetadata)
    requires
        split.start_secs <= i64::MAX,
        split.end_secs <= i64::MAX,
    ensures
        split.window is Some ==> window_of(split) == split.window->0,
        split.window is None ==> window_of(split).start == split.start_secs && window_of(split).end
            == split.end_secs,
{
}

/// A split that replaces nothing is told of as new, with its rows, and one that replaces others as a
/// merge, with what it replaces. Either way the event names the index and the split.
pub proof fn merges_are_told_from_new_splits(
    event: MergePipelineEvent,
    index_uid: Seq<char>,
    split: ParquetSplitMetadata,
    replaced: Seq<Seq<char>>,
)
    requires
        tells_of_publication(event, index_uid, split, replaced),
    ensures
        event is IngestSplit <==> replaced.len() == 0,
        event is PublishMergeAndFeedback <==> replaced.len() > 0,
        event matches MergePipelineEvent::IngestSplit { index_uid: uid, split_id, num_rows, window }
            ==> uid@ == index_uid && split_id@ == split.split_id@ && num_rows == split.num_rows
            && window == window_of(split),
        event matches MergePipelineEvent::PublishMergeAndFeedback {
            index_uid: uid,
            merge_id,
            output_split_id,
            replaced_split_ids,
            output_window,
            output_merge_ops,
        } ==> uid@ == index_uid && merge_id@ == split.split_id@ && output_split_id@
            == split.split_id@ && path::texts(replaced_split_ids@) == replaced && output_window
            == window_of(split) && output_merge_ops == split.num_merge_ops,
{
}

/// An upload is told of with the index, the split, its rows and its window, under the id of the split.
pub proof fn uploads_are_told_of_by_split(
    event: MergePipelineEvent,
    index_uid: Seq<char>,
    split: ParquetSplitMetadata,
)
    requires
        tells_of_upload(event, index_uid, split),
    ensures
        event matches MergePipelineEvent::UploadMergeOutput {
            index_uid: uid,
            merge_id,
            output_split_id,
            output_num_rows,
            output_window,
            output_merge_ops,
        } && uid@ == index_uid && merge_id@ == split.split_id@ && output_split_id@
            == split.split_id@ && output_num_rows == split.num_rows && output_window == window_of(
            split,
        ) && output_merge_ops == split.num_merge_ops,
{
}

/// Preparing a split sets its maturity and changes nothing else.
pub proof fn prepared_splits_differ_in_maturity_alone(
    split: ParquetSplitMetadata,
    maturity: ParquetSplitMaturity,
)
    ensures
        with_maturity(split, maturity).maturity == maturity,
        (ParquetSplitMetadata { maturity: split.maturity, ..with_maturity(split, maturity) })
            == split,
{
}

/// A dry run deletes nothing. Otherwise every split of a page is deleted, and no other.
pub proof fn every_split_of_a_page_is_deleted(page: Seq<SplitInfo>, i: int)
    ensures
        ids_to_delete(true, page).len() == 0,
        ids_to_delete(false, page).len() == page.len(),
        0 <= i < page.len() ==> ids_to_delete(false, page)[i] == page[i].split_id@,
{
}

/// A page whose splits could not all be deleted stops the deletion, with what was deleted before it. Any
/// other page is added to what was deleted, and the next one is listed exactly if there is one.
pub proof fn failed_pages_stop_the_deletion(
    before: Seq<SplitInfo>,
    after: Seq<SplitInfo>,
    page: Seq<SplitInfo>,
    failed: Seq<Seq<char>>,
    has_next_page: bool,
    next: NextPage,
)
    requires
        closes_page(before, after, page, failed, has_next_page, next),
    ensures
        next is Failed <==> failed.len() > 0,
        next is List <==> failed.len() == 0 && has_next_page,
        next is Done <==> failed.len() == 0 && !has_next_page,
        failed.len() > 0 ==> after == before,
        failed.len() == 0 ==> after == before + page,
{
}

/// What was listed is the pages one behind the other.
pub proof fn pages_are_listed_in_order(pages: Seq<Seq<SplitInfo>>, dry_run: bool, n: nat)
    requires
        n < pages.len(),
    ensures
        all_listed(pages, 0).len() == 0,
        all_listed(pages, n + 1) == all_listed(pages, n) + pages[n as int],
        all_ids_to_delete(dry_run, pages, 0).len() == 0,
        all_ids_to_delete(dry_run, pages, n + 1) == all_ids_to_delete(dry_run, pages, n)
            + ids_to_delete(dry_run, pages[n as int]),
{
}

/// An index is named among the Parquet ones exactly if it is listed and not a Tantivy index, in the
/// order in which they are listed.
pub proof fn parquet_indexes_are_named(indexes: Seq<ListedIndex>, n: nat, name: Seq<char>)
    requires
        n <= indexes.len(),
    ensures
        parquet_names(indexes, n).contains(name) <==> exists|i: int|
            0 <= i < n && !((#[trigger] indexes[i]).index_type is Tantivy) && indexes[i].index_id@
                == name,
        n < indexes.len() && indexes[n as int].index_type is Tantivy ==> parquet_names(
            indexes,
            n + 1,
        ) == parquet_names(indexes, n),
        n < indexes.len() && !(indexes[n as int].index_type is Tantivy) ==> parquet_names(
            indexes,
            n + 1,
        ) == parquet_names(indexes, n).push(indexes[n as int].index_id@),
    decreases n,
{
    if n > 0 {
        parquet_indexes_are_named(indexes, (n - 1) as nat, name);
        let before = parquet_names(indexes, (n - 1) as nat);
        let after = parquet_names(indexes, n);
        let last = indexes[n - 1];
        if !(last.index_type is Tantivy) {
            assert(after[before.len() as int] == last.index_id@);
            if before.contains(name) {
                let i = choose|i: int| 0 <= i < before.len() && before[i] == name;
                assert(after[i] == name);
            }
            if after.contains(name) && last.index_id@ != name {
                let i = choose|i: int| 0 <= i < after.len() && after[i] == name;
                assert(before[i] == name);
            }
        }
    }
}

} // verus!
