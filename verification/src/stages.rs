//! The stages of the pipelines, in the order in which they are spawned. Every stage is handed the
//! mailbox of the one it feeds, so consumers come before producers.

use vstd::prelude::*;

use crate::uploader::UploaderType;

verus! {

/// A kind of stage.
#[derive(Clone, Copy, Debug, PartialEq, Eq, Structural)]
pub enum Stage {
    Publisher,
    Sequencer,
    Uploader,
    Packager,
    IndexSerializer,
    Indexer,
    DocProcessor,
    Source,
    MergeExecutor,
    MergeSplitDownloader,
    MergePlanner,
}

/// How a stage is set up.
#[derive(Clone, Copy, Debug, PartialEq, Eq, Structural)]
pub struct StagePlan {
    pub stage: Stage,
    /// The stage that takes what this one puts out.
    pub feeds: Option<Stage>,
    /// The stage that is told how far it may truncate.
    pub truncates: Option<Stage>,
    /// The stage that is told of new splits.
    pub feeds_back: Option<Stage>,
    /// How many messages may wait for the stage, where the pipeline sets a bound.
    pub queue_capacity: Option<usize>,
    /// The role of an uploader.
    pub role: Option<UploaderType>,
}

/// A stage that only hands its output on.
pub open spec fn relay(stage: Stage, feeds: Stage) -> StagePlan {
    StagePlan {
        stage,
        feeds: Some(feeds),
        truncates: None,
        feeds_back: None,
        queue_capacity: None,
        role: None,
    }
}

/// An uploader.
pub open spec fn uploading(role: UploaderType, feeds: Stage) -> StagePlan {
    StagePlan {
        stage: Stage::Uploader,
        feeds: Some(feeds),
        truncates: None,
        feeds_back: None,
        queue_capacity: None,
        role: Some(role),
    }
}

/// The last stage that splits pass through.
pub open spec fn publishing(
    truncates: Option<Stage>,
    feeds_back: Option<Stage>,
    queue_capacity: Option<usize>,
) -> StagePlan {
    StagePlan {
        stage: Stage::Publisher,
        feeds: None,
        truncates,
        feeds_back,
        queue_capacity,
        role: None,
    }
}

/// The planner of a merge pipeline.
pub open spec fn planning(queue_capacity: Option<usize>) -> StagePlan {
    StagePlan {
        stage: Stage::MergePlanner,
        feeds: Some(Stage::MergeSplitDownloader),
        truncates: None,
        feeds_back: None,
        queue_capacity,
        role: None,
    }
}

/// The planner that an indexing pipeline tells of new splits: that of the merge pipeline beside it,
/// if there is one.
pub open spec fn planner_beside(has_merge_planner: bool) -> Option<Stage> {
    if has_merge_planner {
        Some(Stage::MergePlanner)
    } else {
        None
    }
}

fn relay_plan(stage: Stage, feeds: Stage) -> (plan: StagePlan)
    ensures
        plan == relay(stage, feeds),
{
    StagePlan {
        stage,
        feeds: Some(feeds),
        truncates: None,
        feeds_back: None,
        queue_capacity: None,
        role: None,
    }
}

fn uploader_plan(role: UploaderType, feeds: Stage) -> (plan: StagePlan)
    ensures
        plan == uploading(role, feeds),
{
    StagePlan {
        stage: Stage::Uploader,
        feeds: Some(feeds),
        truncates: None,
        feeds_back: None,
        queue_capacity: None,
        role: Some(role),
    }
}

fn publisher_plan(
    truncates: Option<Stage>,
    feeds_back: Option<Stage>,
    queue_capacity: Option<usize>,
) -> (plan: StagePlan)
    ensures
        plan == publishing(truncates, feeds_back, queue_capacity),
{
    StagePlan {
        stage: Stage::Publisher,
        feeds: None,
        truncates,
        feeds_back,
        queue_capacity,
        role: None,
    }
}

fn planner_plan(queue_capacity: Option<usize>) -> (plan: StagePlan)
    ensures
        plan == planning(queue_capacity),
{
    StagePlan {
        stage: Stage::MergePlanner,
        feeds: Some(Stage::MergeSplitDownloader),
        truncates: None,
        feeds_back: None,
        queue_capacity,
        role: None,
    }
}

/// The publisher of an indexing pipeline takes one publication at a time.
fn indexing_publisher_plan(has_merge_planner: bool) -> (plan: StagePlan)
    ensures
        plan == publishing(Some(Stage::Source), planner_beside(has_merge_planner), Some(1)),
{
    let feeds_back = if has_merge_planner {
        Some(Stage::MergePlanner)
    } else {
        None
    };
    publisher_plan(Some(Stage::Source), feeds_back, Some(1))
}

/// The stages of a Tantivy indexing pipeline.
pub open spec fn tantivy_indexing_stages(has_merge_planner: bool) -> Seq<StagePlan> {
    seq![
        publishing(Some(Stage::Source), planner_beside(has_merge_planner), Some(1)),
        relay(Stage::Sequencer, Stage::Publisher),
        uploading(UploaderType::IndexUploader, Stage::Sequencer),
        relay(Stage::Packager, Stage::Uploader),
        relay(Stage::IndexSerializer, Stage::Packager),
        relay(Stage::Indexer, Stage::IndexSerializer),
        relay(Stage::DocProcessor, Stage::Indexer),
        relay(Stage::Source, Stage::DocProcessor),
    ]
}

/// The stages of a Tantivy indexing pipeline. Its publisher, which takes one publication at a
/// time, tells the source how far it may truncate, and the merge planner of new splits.
pub fn plan_tantivy_indexing(has_merge_planner: bool) -> (plan: Vec<StagePlan>)
    ensures
        plan@ == tantivy_indexing_stages(has_merge_planner),
{
    let mut plan: Vec<StagePlan> = Vec::new();
    plan.push(indexing_publisher_plan(has_merge_planner));
    plan.push(relay_plan(Stage::Sequencer, Stage::Publisher));
    plan.push(uploader_plan(UploaderType::IndexUploader, Stage::Sequencer));
    plan.push(relay_plan(Stage::Packager, Stage::Uploader));
    plan.push(relay_plan(Stage::IndexSerializer, Stage::Packager));
    plan.push(relay_plan(Stage::Indexer, Stage::IndexSerializer));
    plan.push(relay_plan(Stage::DocProcessor, Stage::Indexer));
    plan.push(relay_plan(Stage::Source, Stage::DocProcessor));
    plan
}

/// The stages of a Parquet indexing pipeline.
pub open spec fn parquet_indexing_stages(has_merge_planner: bool) -> Seq<StagePlan> {
    seq![
        publishing(Some(Stage::Source), planner_beside(has_merge_planner), Some(1)),
        relay(Stage::Sequencer, Stage::Publisher),
        uploading(UploaderType::IndexUploader, Stage::Sequencer),
        relay(Stage::Packager, Stage::Uploader),
        relay(Stage::Indexer, Stage::Packager),
        relay(Stage::DocProcessor, Stage::Indexer),
        relay(Stage::Source, Stage::DocProcessor),
    ]
}

/// The stages of a Parquet indexing pipeline. Its publisher, which takes one publication at a
/// time, tells the source how far it may truncate, and the merge planner of new splits.
pub fn plan_parquet_indexing(has_merge_planner: bool) -> (plan: Vec<StagePlan>)
    ensures
        plan@ == parquet_indexing_stages(has_merge_planner),
{
    let mut plan: Vec<StagePlan> = Vec::new();
    plan.push(indexing_publisher_plan(has_merge_planner));
    plan.push(relay_plan(Stage::Sequencer, Stage::Publisher));
    plan.push(uploader_plan(UploaderType::IndexUploader, Stage::Sequencer));
    plan.push(relay_plan(Stage::Packager, Stage::Uploader));
    plan.push(relay_plan(Stage::Indexer, Stage::Packager));
    plan.push(relay_plan(Stage::DocProcessor, Stage::Indexer));
    plan.push(relay_plan(Stage::Source, Stage::DocProcessor));
    plan
}

/// The stages of a Tantivy merge pipeline.
pub open spec fn tantivy_merge_stages() -> Seq<StagePlan> {
    seq![
        publishing(None, Some(Stage::MergePlanner), None),
        uploading(UploaderType::MergeUploader, Stage::Publisher),
        relay(Stage::Packager, Stage::Uploader),
        relay(Stage::MergeExecutor, Stage::Packager),
        relay(Stage::MergeSplitDownloader, Stage::MergeExecutor),
        planning(None),
    ]
}

/// The stages of a Tantivy merge pipeline. Merges need no order, so there is no sequencer; the
/// publisher tells the planner of new splits. The planner sets the bound of its own queue.
pub fn plan_tantivy_merge() -> (plan: Vec<StagePlan>)
    ensures
        plan@ == tantivy_merge_stages(),
{
    let mut plan: Vec<StagePlan> = Vec::new();
    plan.push(publisher_plan(None, Some(Stage::MergePlanner), None));
    plan.push(uploader_plan(UploaderType::MergeUploader, Stage::Publisher));
    plan.push(relay_plan(Stage::Packager, Stage::Uploader));
    plan.push(relay_plan(Stage::MergeExecutor, Stage::Packager));
    plan.push(relay_plan(Stage::MergeSplitDownloader, Stage::MergeExecutor));
    plan.push(planner_plan(None));
    plan
}

/// The stages of a Parquet merge pipeline.
pub open spec fn parquet_merge_stages() -> Seq<StagePlan> {
    seq![
        publishing(None, Some(Stage::MergePlanner), None),
        relay(Stage::Sequencer, Stage::Publisher),
        uploading(UploaderType::MergeUploader, Stage::Sequencer),
        relay(Stage::MergeExecutor, Stage::Uploader),
        relay(Stage::MergeSplitDownloader, Stage::MergeExecutor),
        planning(Some(1)),
    ]
}

/// The stages of a Parquet merge pipeline. The publisher tells the planner of new splits, and one
/// message at a time waits for the planner.
pub fn plan_parquet_merge() -> (plan: Vec<StagePlan>)
    ensures
        plan@ == parquet_merge_stages(),
{
    let mut plan: Vec<StagePlan> = Vec::new();
    plan.push(publisher_plan(None, Some(Stage::MergePlanner), None));
    plan.push(relay_plan(Stage::Sequencer, Stage::Publisher));
    plan.push(uploader_plan(UploaderType::MergeUploader, Stage::Sequencer));
    plan.push(relay_plan(Stage::MergeExecutor, Stage::Uploader));
    plan.push(relay_plan(Stage::MergeSplitDownloader, Stage::MergeExecutor));
    plan.push(planner_plan(Some(1)));
    plan
}

/// Whether stages form one chain: the first ends it, and every other feeds the one before it.
pub open spec fn is_chain(plan: Seq<StagePlan>) -> bool {
    &&& plan.len() > 0
    &&& plan[0].feeds is None
    &&& forall|i: int| 0 < i < plan.len() ==> #[trigger] plan[i].feeds == Some(plan[i - 1].stage)
}

/// Every pipeline is one chain of stages that ends in the publisher: no stage feeds one that was
/// not spawned before it, and none is left out.
pub proof fn pipelines_are_chains(has_merge_planner: bool)
    ensures
        is_chain(tantivy_indexing_stages(has_merge_planner)),
        is_chain(parquet_indexing_stages(has_merge_planner)),
        is_chain(tantivy_merge_stages()),
        is_chain(parquet_merge_stages()),
        tantivy_indexing_stages(has_merge_planner)[0].stage == Stage::Publisher,
        parquet_indexing_stages(has_merge_planner)[0].stage == Stage::Publisher,
        tantivy_merge_stages()[0].stage == Stage::Publisher,
        parquet_merge_stages()[0].stage == Stage::Publisher,
{
}

/// Feedback closes every pipeline into a loop: what its publisher tells of its work is where work
/// enters, the source of an indexing pipeline and the planner of a merge pipeline. A merge planner
/// learns of the new splits of both.
pub proof fn publishers_notify_the_entry()
    ensures
        forall|planner: bool|
            #![trigger tantivy_indexing_stages(planner)]
            tantivy_indexing_stages(planner)[0].truncates == Some(
                tantivy_indexing_stages(planner).last().stage,
            ) && tantivy_indexing_stages(planner)[0].feeds_back == planner_beside(planner),
        forall|planner: bool|
            #![trigger parquet_indexing_stages(planner)]
            parquet_indexing_stages(planner)[0].truncates == Some(
                parquet_indexing_stages(planner).last().stage,
            ) && parquet_indexing_stages(planner)[0].feeds_back == planner_beside(planner),
        tantivy_merge_stages()[0].feeds_back == Some(tantivy_merge_stages().last().stage),
        parquet_merge_stages()[0].feeds_back == Some(parquet_merge_stages().last().stage),
{
}

/// What holds of the plan of every pipeline: only the uploader has a role, the one given, and only the
/// publisher tells other stages of what was published.
pub open spec fn uploads_as(plan: Seq<StagePlan>, role: UploaderType) -> bool {
    &&& exists|i: int| 0 <= i < plan.len() && (#[trigger] plan[i]).stage is Uploader
    &&& forall|i: int|
        0 <= i < plan.len() ==> {
            &&& (#[trigger] plan[i]).stage is Uploader ==> plan[i].role == Some(role)
            &&& !(plan[i].stage is Uploader) ==> plan[i].role is None
            &&& !(plan[i].stage is Publisher) ==> plan[i].truncates is None
                && plan[i].feeds_back is None
        }
    &&& forall|i: int, j: int|
        0 <= i < j < plan.len() ==> (#[trigger] plan[i]).stage != (#[trigger] plan[j]).stage
}

/// An indexing pipeline uploads as the indexing uploader and a merge pipeline as the merge uploader. No
/// stage stands twice in a pipeline.
pub proof fn uploaders_have_their_role(has_merge_planner: bool)
    ensures
        uploads_as(tantivy_indexing_stages(has_merge_planner), UploaderType::IndexUploader),
        uploads_as(parquet_indexing_stages(has_merge_planner), UploaderType::IndexUploader),
        uploads_as(tantivy_merge_stages(), UploaderType::MergeUploader),
        uploads_as(parquet_merge_stages(), UploaderType::MergeUploader),
{
    assert(tantivy_indexing_stages(has_merge_planner)[2].stage is Uploader);
    assert(parquet_indexing_stages(has_merge_planner)[2].stage is Uploader);
    assert(tantivy_merge_stages()[1].stage is Uploader);
    assert(parquet_merge_stages()[2].stage is Uploader);
}

/// Documents enter an indexing pipeline at its source, and splits enter a merge pipeline at its planner.
/// Both indexing pipelines publish in the order of their sequencer. So does the Parquet merge pipeline,
/// while the Tantivy one publishes what is uploaded directly.
pub proof fn documents_pass_every_stage(has_merge_planner: bool)
    ensures
        tantivy_indexing_stages(has_merge_planner).len() == 8,
        parquet_indexing_stages(has_merge_planner).len() == 7,
        tantivy_merge_stages().len() == 6,
        parquet_merge_stages().len() == 6,
        tantivy_indexing_stages(has_merge_planner).last().stage is Source,
        parquet_indexing_stages(has_merge_planner).last().stage is Source,
        tantivy_merge_stages().last().stage is MergePlanner,
        parquet_merge_stages().last().stage is MergePlanner,
        tantivy_indexing_stages(has_merge_planner)[1].stage is Sequencer,
        parquet_indexing_stages(has_merge_planner)[1].stage is Sequencer,
        parquet_merge_stages()[1].stage is Sequencer,
        tantivy_merge_stages()[1].stage is Uploader,
        forall|i: int|
            0 <= i < 8 ==> (#[trigger] tantivy_indexing_stages(has_merge_planner)[i]).stage
                is IndexSerializer == (i == 4),
        forall|i: int|
            0 <= i < 7 ==> !((#[trigger] parquet_indexing_stages(has_merge_planner)[i]).stage
                is IndexSerializer),
{
}

/// Only a publisher of an indexing pipeline and the planner of the Parquet merge pipeline have a bounded
/// queue, of one message.
pub proof fn bounded_queues_hold_one_message(has_merge_planner: bool, i: int)
    ensures
        0 <= i < 8 ==> tantivy_indexing_stages(has_merge_planner)[i].queue_capacity == if i == 0 {
            Some(1usize)
        } else {
            None
        },
        0 <= i < 7 ==> parquet_indexing_stages(has_merge_planner)[i].queue_capacity == if i == 0 {
            Some(1usize)
        } else {
            None
        },
        0 <= i < 6 ==> tantivy_merge_stages()[i].queue_capacity is None,
        0 <= i < 6 ==> parquet_merge_stages()[i].queue_capacity == if i == 5 {
            Some(1usize)
        } else {
            None
        },
        planner_beside(true) == Some(Stage::MergePlanner),
        planner_beside(false) is None,
        tantivy_merge_stages()[0].truncates is None,
        parquet_merge_stages()[0].truncates is None,
{
}

} // verus!
