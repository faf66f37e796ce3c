use std::time::Duration;

use quickwit::parquet::{ParquetSplitKind, SplitState};
use quickwit::pipeline::{
    Assignment, IndexingStatistics, MergeStatistics, ParquetIndexing, ParquetMerge,
    ParquetStageCounters, Seed, SourcePipeline, SourceState, TantivyIndexing, TantivyMerge,
};
use quickwit::publisher::PublisherCounters;
use quickwit::stages::{
    plan_parquet_indexing, plan_parquet_merge, plan_tantivy_indexing, plan_tantivy_merge, Stage,
    StagePlan,
};
use quickwit::supervisor::{
    exit_error, wait_duration_before_retry, DrainMessage, DrainablePipeline,
    FinishPendingMergesAndShutdownPipeline, Health, Pipeline, PipelineActors, PipelineStatistics,
    PipelineSupervisor, SpawnOutcome, SupervisorStep,
};
use quickwit::uploader::UploaderCounters;

fn merge_pipeline() -> PipelineSupervisor<TantivyMerge<u32>> {
    PipelineSupervisor::from_pipeline(TantivyMerge {
        initial_immature_splits: None,
        heartbeat_millis: 30_000,
    })
}

fn actors(num_actors: usize) -> PipelineActors {
    let mut actors = PipelineActors::new(0, 30_000);
    for _ in 0..num_actors {
        actors.spawn();
    }
    actors
}

fn merge_statistics(num_published_splits: u64) -> MergeStatistics {
    MergeStatistics {
        num_ongoing_merges: 0,
        num_uploaded_splits: 0,
        num_published_splits,
        generation: 0,
        num_spawn_attempts: 0,
    }
}

fn start(supervisor: &mut PipelineSupervisor<TantivyMerge<u32>>, published: u64) {
    assert!(supervisor.begin_spawn());
    let outcome = SpawnOutcome::Started(actors(3), merge_statistics(published));
    assert_eq!(
        supervisor.end_spawn(outcome, 0, 0, 30_000),
        SupervisorStep::Continue
    );
}

#[test]
fn test_wait_duration() {
    assert_eq!(wait_duration_before_retry(0), Duration::from_secs(1));
    assert_eq!(wait_duration_before_retry(1), Duration::from_secs(2));
    assert_eq!(wait_duration_before_retry(2), Duration::from_secs(4));
    assert_eq!(wait_duration_before_retry(3), Duration::from_secs(8));
    assert_eq!(wait_duration_before_retry(9), Duration::from_secs(512));
    assert_eq!(wait_duration_before_retry(10), Duration::from_secs(600));
    assert_eq!(wait_duration_before_retry(usize::MAX), Duration::from_secs(600));
}

#[test]
fn construction_time_does_not_consume_progress_budget() {
    let now: u64 = 100_000;
    let heartbeat: u64 = 30_000;
    let mut actors = PipelineActors::new(0, heartbeat);
    actors.spawn();
    actors.next_progress_check = now - 1_000;
    actors.start_supervising(now, heartbeat);
    let checked_progress = actors.check_progress(now, heartbeat);
    assert_eq!(actors.health(&vec![Health::Healthy]), Health::Healthy);
    assert!(!checked_progress);
}

#[test]
fn progress_is_checked_once_per_heartbeat() {
    let mut actors = actors(1);
    actors.start_supervising(1_000, 30_000);
    assert!(!actors.check_progress(30_999, 30_000));
    assert!(actors.check_progress(31_000, 30_000));
    assert!(!actors.check_progress(31_001, 30_000));
}

#[test]
fn one_failure_fails_a_generation_and_all_successes_complete_it() {
    let actors = actors(3);
    assert!(!actors.is_empty());
    assert_eq!(
        actors.health(&vec![Health::Success, Health::FailureOrUnhealthy, Health::Healthy]),
        Health::FailureOrUnhealthy
    );
    assert_eq!(
        actors.health(&vec![Health::Success, Health::Healthy, Health::Success]),
        Health::Healthy
    );
    assert_eq!(
        actors.health(&vec![Health::Success, Health::Success, Health::Success]),
        Health::Success
    );
}

#[test]
fn counters_accumulate_over_generations() {
    let mut supervisor = merge_pipeline();
    start(&mut supervisor, 3);
    assert_eq!(supervisor.statistics.num_published_splits, 3);
    assert_eq!(supervisor.statistics.generation, 1);
    assert_eq!(supervisor.statistics.num_spawn_attempts, 1);

    assert_eq!(supervisor.supervise(Health::FailureOrUnhealthy), SupervisorStep::Stop);
    assert_eq!(
        supervisor.fail(merge_statistics(4)),
        SupervisorStep::Restart { delay_millis: 30_000 }
    );
    assert_eq!(supervisor.previous.num_published_splits, 4);
    assert!(supervisor.running.is_none());

    start(&mut supervisor, 6);
    assert_eq!(supervisor.statistics.num_published_splits, 6);
    assert_eq!(supervisor.statistics.generation, 2);
    assert_eq!(supervisor.statistics.num_spawn_attempts, 2);
}

#[test]
fn duplicate_spawn_does_not_start_a_second_generation() {
    let mut supervisor = merge_pipeline();
    start(&mut supervisor, 0);
    assert!(!supervisor.begin_spawn());
    assert_eq!(supervisor.spawn_attempts, 1);
    assert_eq!(supervisor.generation, 1);
}

#[test]
fn failed_spawns_are_retried_with_a_growing_count() {
    let mut supervisor = merge_pipeline();
    assert!(supervisor.begin_spawn());
    assert_eq!(
        supervisor.end_spawn(SpawnOutcome::Failed, 0, 0, 30_000),
        SupervisorStep::Retry { retry_count: 1, wait: Duration::from_secs(2) }
    );
    assert!(supervisor.begin_spawn());
    assert_eq!(
        supervisor.end_spawn(SpawnOutcome::Failed, 1, 0, 30_000),
        SupervisorStep::Retry { retry_count: 2, wait: Duration::from_secs(4) }
    );
    assert_eq!(supervisor.statistics.num_spawn_attempts, 2);
    assert_eq!(supervisor.statistics.generation, 0);
}

#[test]
fn deleted_indexes_and_empty_graphs_end_the_pipeline() {
    let mut supervisor = merge_pipeline();
    assert!(supervisor.begin_spawn());
    assert_eq!(
        supervisor.end_spawn(SpawnOutcome::Deleted, 0, 0, 30_000),
        SupervisorStep::Exit
    );
    let mut supervisor = merge_pipeline();
    assert!(supervisor.begin_spawn());
    let step = supervisor.end_spawn(
        SpawnOutcome::Started(actors(0), merge_statistics(0)),
        0,
        0,
        30_000,
    );
    assert_eq!(step, SupervisorStep::NoActors);
    assert_eq!(exit_error(&step), Some("pipeline spawned no actors".to_string()));
}

#[test]
fn draining_is_terminal() {
    // While waiting to retry.
    let mut supervisor = merge_pipeline();
    assert_eq!(
        supervisor.finish_pending_merges(FinishPendingMergesAndShutdownPipeline),
        SupervisorStep::Exit
    );
    assert!(!supervisor.begin_spawn());

    // While running: a second request changes nothing, and completion is a success.
    let mut supervisor = merge_pipeline();
    start(&mut supervisor, 0);
    assert_eq!(
        supervisor.finish_pending_merges(FinishPendingMergesAndShutdownPipeline),
        SupervisorStep::Drain
    );
    assert_eq!(
        supervisor.finish_pending_merges(FinishPendingMergesAndShutdownPipeline),
        SupervisorStep::Continue
    );
    assert_eq!(supervisor.supervise(Health::Healthy), SupervisorStep::Continue);
    assert_eq!(supervisor.supervise(Health::Success), SupervisorStep::Exit);

    // A failure while draining is no success, and no restart.
    let step = supervisor.fail(merge_statistics(0));
    assert_eq!(step, SupervisorStep::FailedWhileDraining);
    assert_eq!(exit_error(&step), Some("pipeline failed while draining".to_string()));
    assert!(!supervisor.begin_spawn());
}

#[test]
fn draining_disconnects_the_planner_first() {
    let pipeline: TantivyMerge<u32> =
        TantivyMerge { initial_immature_splits: None, heartbeat_millis: 1 };
    assert_eq!(
        pipeline.drain(),
        vec![
            DrainMessage::DisconnectMergePlanner,
            DrainMessage::RunFinalizeMergePolicyAndQuit
        ]
    );
    assert_eq!(pipeline.restart_delay_millis(), 1);
    let pipeline: ParquetMerge<u32> = ParquetMerge {
        initial_immature_splits: None,
        skip_initial_seed: false,
        heartbeat_millis: 2,
    };
    assert_eq!(pipeline.drain().len(), 2);
    assert_eq!(pipeline.restart_delay_millis(), 2);
}

#[test]
fn assignments_survive_generations() {
    let mut supervisor = PipelineSupervisor::from_pipeline(TantivyIndexing {
        source: SourceState::new(17),
    });
    assert_eq!(supervisor.statistics.params_fingerprint, 17);
    assert!(supervisor.statistics.shard_ids.is_empty());
    let assignment = Assignment {
        shard_ids: vec!["1".to_string(), "2".to_string()],
        indexing_plan_id: "plan".to_string(),
    };
    supervisor.assign_shards(&assignment, None);
    assert_eq!(supervisor.statistics.shard_ids, ["1", "2"]);
    assert_eq!(supervisor.pipeline.start_source().publish_token, None);

    assert!(supervisor.begin_spawn());
    supervisor.end_spawn(
        SpawnOutcome::Started(actors(1), IndexingStatistics::empty()),
        0,
        0,
        1_000,
    );
    assert_eq!(supervisor.statistics.shard_ids, ["1", "2"]);
    supervisor.pipeline.set_publish_token(Some("token".to_string()));
    assert_eq!(
        supervisor.fail(IndexingStatistics::empty()),
        SupervisorStep::Restart { delay_millis: 1_000 }
    );
    assert_eq!(supervisor.pipeline.source.assignment.shard_ids, ["1", "2"]);
    assert_eq!(supervisor.pipeline.source.assignment.indexing_plan_id, "plan");

    // The source of the next generation has the assignment and the publish token of this one.
    assert!(supervisor.begin_spawn());
    supervisor.assign_shards(
        &Assignment { shard_ids: vec!["3".to_string()], indexing_plan_id: "next".to_string() },
        None,
    );
    let start = supervisor.pipeline.start_source();
    assert_eq!(start.publish_token.as_deref(), Some("token"));
    assert_eq!(start.assignment.shard_ids, ["3"]);
    assert_eq!(start.assignment.indexing_plan_id, "next");
}

#[test]
fn merges_start_with_what_is_published_and_immature() {
    let index_uid = "test-index:0".to_string();
    let query =
        TantivyMerge::<u32>::immature_splits_query(&index_uid, &"test-node".to_string(), 1_000);
    assert_eq!(query.index_uid, "test-index:0");
    assert_eq!(query.node_id, "test-node");
    assert_eq!(query.split_state, SplitState::Published);
    assert_eq!(query.immature_at, 1_000);
    let query = ParquetMerge::<u32>::immature_splits_query(
        &index_uid,
        ParquetSplitKind::Sketches,
        1_000,
    );
    assert_eq!(query.index_uid, "test-index:0");
    assert_eq!(query.split_kind, ParquetSplitKind::Sketches);
    assert_eq!(query.split_state, SplitState::Published);
    assert_eq!(query.immature_at, 1_000);
}

#[test]
fn parquet_counters_are_added_to_earlier_generations() {
    let pipeline = ParquetIndexing { source: SourceState::new(0) };
    let stages = ParquetStageCounters {
        valid_rows: 1,
        num_errors: 2,
        bytes_total: 3,
        batches_flushed: 4,
        uploader: UploaderCounters { num_staged_splits: 5, num_uploaded_splits: 6 },
        publisher: PublisherCounters {
            num_published_splits: 7,
            num_replace_operations: 8,
            num_empty_splits: 9,
        },
    };
    let once = pipeline.observe(&stages, IndexingStatistics::empty());
    let twice = pipeline.observe(&stages, once);
    assert_eq!(twice.num_docs, 2);
    assert_eq!(twice.num_invalid_docs, 4);
    assert_eq!(twice.total_bytes_processed, 6);
    assert_eq!(twice.num_local_splits, 8);
    assert_eq!(twice.num_staged_splits, 10);
    assert_eq!(twice.num_uploaded_splits, 12);
    assert_eq!(twice.num_published_splits, 14);
    assert_eq!(twice.num_empty_splits, 18);
}

#[test]
fn initial_splits_are_used_once() {
    let mut pipeline =
        TantivyMerge { initial_immature_splits: Some(vec![1, 2]), heartbeat_millis: 1 };
    assert!(matches!(pipeline.fetch_immature_splits(), Seed::Splits(splits) if splits == [1, 2]));
    assert!(matches!(pipeline.fetch_immature_splits(), Seed::Fetch));

    let mut pipeline = ParquetMerge {
        initial_immature_splits: Some(vec![3]),
        skip_initial_seed: true,
        heartbeat_millis: 1,
    };
    assert!(matches!(pipeline.fetch_immature_splits(), Seed::Splits(splits) if splits == [3]));
    assert!(matches!(pipeline.fetch_immature_splits(), Seed::Splits(splits) if splits.is_empty()));
    let mut pipeline: ParquetMerge<u32> = ParquetMerge {
        initial_immature_splits: None,
        skip_initial_seed: false,
        heartbeat_millis: 1,
    };
    assert!(matches!(pipeline.fetch_immature_splits(), Seed::Fetch));
}

fn stage_names(plan: &[StagePlan]) -> Vec<Stage> {
    plan.iter().map(|stage| stage.stage).collect()
}

#[test]
fn stages_are_spawned_consumer_first() {
    assert_eq!(
        stage_names(&plan_tantivy_indexing(true)),
        [
            Stage::Publisher,
            Stage::Sequencer,
            Stage::Uploader,
            Stage::Packager,
            Stage::IndexSerializer,
            Stage::Indexer,
            Stage::DocProcessor,
            Stage::Source
        ]
    );
    for plan in [
        plan_tantivy_indexing(true),
        plan_parquet_indexing(true),
        plan_tantivy_merge(),
        plan_parquet_merge(),
    ] {
        assert_eq!(plan[0].feeds, None);
        for i in 1..plan.len() {
            assert_eq!(plan[i].feeds, Some(plan[i - 1].stage));
        }
        let entry = Some(plan[plan.len() - 1].stage);
        assert!(plan[0].truncates == entry || plan[0].feeds_back == entry);
        assert_eq!(plan[0].feeds_back, Some(Stage::MergePlanner));
    }
}

#[test]
fn queues_are_bounded_where_the_pipeline_says_so() {
    let capacities = |plan: Vec<StagePlan>| {
        (plan[0].queue_capacity, plan[plan.len() - 1].queue_capacity)
    };
    // One publication at a time, and a source that is never blocked.
    assert_eq!(capacities(plan_tantivy_indexing(true)), (Some(1), None));
    assert_eq!(capacities(plan_parquet_indexing(true)), (Some(1), None));
    assert_eq!(capacities(plan_tantivy_merge()), (None, None));
    assert_eq!(capacities(plan_parquet_merge()), (None, Some(1)));
}

#[test]
fn indexing_works_without_a_merge_pipeline() {
    assert_eq!(plan_tantivy_indexing(false)[0].feeds_back, None);
    assert_eq!(plan_parquet_indexing(false)[0].truncates, Some(Stage::Source));
}
