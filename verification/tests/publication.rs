use quickwit::parquet::{
    deleted_split_states, indexing_directory, into_update, list_parquet_index_names, needs_upload,
    partition_key, pipeline_error, prepare, publication, record_drained, record_published,
    record_restart, record_uploaded, resolve, stage_kind, validate, IndexMetadataReply, IndexType,
    ListedIndex, MergePipelineEvent, NextPage, PageStep, ParquetSplitBatch, ParquetSplitKind,
    ParquetSplitMaturity, ParquetSplitMetadata, PipelinePart, SplitDeletion, SplitInfo, SplitState,
    Window,
};
use quickwit::publisher::{
    after_attempt, begin_publish, AttemptStep, FailureStep, Feedback, PublishFailure, PublishReply,
    PublishStart, Publisher, SplitUpdate,
};
use quickwit::supervisor::DrainMessage;
use quickwit::tantivy::{
    check_batch, create_split_recovery_metadata, empty_update, publish_request,
    replaced_split_ids, report_splits, with_footer, FooterOffsets, PackagedSplit, SplitMaturity,
    SplitMetadata, TimeRange,
};
use quickwit::uploader::{
    after_admission_step, after_upload_step, begin_upload, deliver, discard, dropped_task_fault,
    earlier_uploads, parquet_actor_name, tantivy_actor_name, upload_fault, AdmissionStep,
    PublicationRoute, Shutdown, TaskEnd, UploadBudget, UploadStep, UploaderCounters, UploaderType,
};

fn parquet_split(split_id: &str) -> ParquetSplitMetadata {
    ParquetSplitMetadata {
        split_id: split_id.to_string(),
        index_uid: "test-index:0".to_string(),
        kind: ParquetSplitKind::Metrics,
        num_rows: 100,
        size_bytes: 1_000_000,
        num_merge_ops: 2,
        start_secs: 1_000,
        end_secs: 2_000,
        window: None,
        maturity: ParquetSplitMaturity::Mature,
    }
}

fn parquet_update(
    splits: Vec<ParquetSplitMetadata>,
    replaced: &[&str],
) -> SplitUpdate<ParquetSplitMetadata, u32, u32> {
    SplitUpdate {
        index_uid: "test-index:0".to_string(),
        new_splits: splits,
        replaced_split_ids: replaced.iter().map(|id| id.to_string()).collect(),
        checkpoint_delta_opt: Some(5),
        merge_task: None,
    }
}

fn publisher(source: Option<u8>, planner: Option<u8>) -> Publisher<u8, u8> {
    Publisher::for_engine("Publisher".to_string(), Some(1), planner, source)
}

#[test]
fn dead_locks_drop_publications_before_validation() {
    assert!(matches!(
        begin_publish(false, Err("invalid".to_string())),
        PublishStart::Skip
    ));
    assert!(matches!(
        begin_publish(true, Err("invalid".to_string())),
        PublishStart::Reject(error) if error == "invalid"
    ));
    assert!(matches!(begin_publish(true, Ok(())), PublishStart::Publish));
}

#[test]
fn revoked_tokens_are_retried_twice() {
    let revoked = || PublishReply::InvalidPublishToken("revoked".to_string());
    assert!(matches!(after_attempt(0, revoked()), AttemptStep::Retry { delay_secs: 1 }));
    assert!(matches!(after_attempt(1, revoked()), AttemptStep::Retry { delay_secs: 3 }));
    assert!(matches!(
        after_attempt(2, revoked()),
        AttemptStep::GiveUp(PublishFailure { invalid_publish_token: true, .. })
    ));
    assert!(matches!(
        after_attempt(0, PublishReply::Failed("offline".to_string())),
        AttemptStep::GiveUp(PublishFailure { invalid_publish_token: false, .. })
    ));
    assert!(matches!(after_attempt(1, PublishReply::Published), AttemptStep::Published));
}

#[test]
fn revoked_tokens_stop_the_source() {
    let failure = |invalid_publish_token| PublishFailure {
        invalid_publish_token,
        error: "boom".to_string(),
    };
    assert!(matches!(
        publisher(Some(1), None).after_failure(failure(true)),
        FailureStep::StopSource
    ));
    assert!(matches!(
        publisher(None, None).after_failure(failure(true)),
        FailureStep::Fail(error) if error == "failed to publish splits: boom"
    ));
    assert!(matches!(
        publisher(Some(1), None).after_failure(failure(false)),
        FailureStep::Fail(_)
    ));
}

#[test]
fn publications_are_counted_by_what_they_are() {
    let mut publisher = publisher(Some(1), None).with_merge_planner(2);
    assert_eq!(
        publisher.published(&parquet_update(vec![parquet_split("a")], &[])),
        Feedback { suggest_truncate: true, notify_planner: true }
    );
    assert_eq!(
        publisher.published(&parquet_update(vec![], &[])),
        Feedback { suggest_truncate: true, notify_planner: false }
    );
    publisher.published(&parquet_update(vec![parquet_split("b")], &["a"]));
    assert_eq!(publisher.counters.num_published_splits, 1);
    assert_eq!(publisher.counters.num_empty_splits, 1);
    assert_eq!(publisher.counters.num_replace_operations, 1);

    publisher.disconnect_merge_planner();
    assert_eq!(
        publisher.published(&parquet_update(vec![parquet_split("c")], &[])),
        Feedback { suggest_truncate: true, notify_planner: false }
    );
}

#[test]
fn publications_of_another_identity_are_rejected() {
    let update = parquet_update(vec![parquet_split("a"), parquet_split("b")], &[]);
    assert_eq!(validate(ParquetSplitKind::Metrics, &update), Ok(()));
    assert_eq!(
        validate(ParquetSplitKind::Sketches, &update),
        Err("split identity does not match the Parquet publication".to_string())
    );
    let mut foreign = parquet_split("b");
    foreign.index_uid = "test-index:1".to_string();
    assert!(
        validate(ParquetSplitKind::Metrics, &parquet_update(vec![parquet_split("a"), foreign], &[]))
            .is_err()
    );
}

#[test]
fn publication_requests_name_all_splits() {
    let update = parquet_update(vec![parquet_split("a"), parquet_split("b")], &["x"]);
    let request = publication(&update, Some("token".to_string()));
    assert_eq!(request.staged_split_ids, ["a", "b"]);
    assert_eq!(request.replaced_split_ids, ["x"]);
    assert_eq!(request.checkpoint_delta, Some(5));
    assert_eq!(request.publish_token.as_deref(), Some("token"));

    // A delta that cannot be copied bit for bit is cloned.
    let update = SplitUpdate {
        index_uid: "test-index:0".to_string(),
        new_splits: vec![parquet_split("a")],
        replaced_split_ids: vec![],
        checkpoint_delta_opt: Some("delta".to_string()),
        merge_task: None::<u32>,
    };
    assert_eq!(publication(&update, None).checkpoint_delta.as_deref(), Some("delta"));
}

#[test]
fn events_tell_ingested_splits_from_merges() {
    let mut windowed = parquet_split("b");
    windowed.window = Some(Window { start: -5, end: 5 });
    let events = record_published(&parquet_update(vec![parquet_split("a"), windowed], &[]));
    assert!(matches!(
        &events[0],
        MergePipelineEvent::IngestSplit { split_id, num_rows: 100, window, .. }
            if split_id == "a" && *window == Window { start: 1_000, end: 2_000 }
    ));
    assert!(matches!(
        &events[1],
        MergePipelineEvent::IngestSplit { window, .. } if *window == Window { start: -5, end: 5 }
    ));
    let events = record_published(&parquet_update(vec![parquet_split("m")], &["a", "b"]));
    assert!(matches!(
        &events[0],
        MergePipelineEvent::PublishMergeAndFeedback {
            merge_id, output_split_id, replaced_split_ids, output_merge_ops: 2, ..
        } if merge_id == "m" && output_split_id == "m" && *replaced_split_ids == ["a", "b"]
    ));
}

fn parquet_batch(splits: Vec<ParquetSplitMetadata>, replaced: &[&str]) -> ParquetSplitBatch<u32, u32> {
    ParquetSplitBatch {
        index_uid: "test-index:0".to_string(),
        splits,
        replaced_split_ids: replaced.iter().map(|id| id.to_string()).collect(),
        checkpoint_delta_opt: Some(1),
        merge_task: Some(9),
    }
}

#[test]
fn batches_take_the_policys_maturity() {
    let immature = ParquetSplitMaturity::Immature { maturation_period_nanos: 7 };
    let batch = parquet_batch(vec![parquet_split("a"), parquet_split("b")], &["x"]);
    assert!(needs_upload(&batch));
    assert_eq!(stage_kind(&batch.splits), Ok(ParquetSplitKind::Metrics));
    let prepared = prepare(batch, &vec![immature, ParquetSplitMaturity::Mature]);
    assert_eq!(prepared.splits[0].maturity, immature);
    assert_eq!(prepared.splits[1].maturity, ParquetSplitMaturity::Mature);
    assert_eq!(prepared.splits[0].split_id, "a");
    let events = record_uploaded(&prepared);
    assert_eq!(events.len(), 2);
    assert!(matches!(
        &events[1],
        MergePipelineEvent::UploadMergeOutput { output_split_id, output_num_rows: 100, .. }
            if output_split_id == "b"
    ));
    let update = into_update(prepared);
    assert_eq!(update.merge_task, Some(9));
    assert_eq!(update.new_splits.len(), 2);

    assert!(record_uploaded(&parquet_batch(vec![parquet_split("a")], &[])).is_empty());
}

#[test]
fn empty_batches_carry_only_their_checkpoint() {
    let batch = parquet_batch(vec![], &[]);
    assert!(!needs_upload(&batch));
    assert_eq!(
        stage_kind(&batch.splits),
        Err("empty batch must use checkpoint-only delivery".to_string())
    );
    let update = into_update(batch);
    assert!(update.new_splits.is_empty());
    assert_eq!(update.checkpoint_delta_opt, Some(1));
}

fn infos(ids: &[&str]) -> Vec<SplitInfo> {
    ids.iter()
        .map(|id| SplitInfo { split_id: id.to_string(), num_docs: 7, file_size_bytes: 3 })
        .collect()
}

#[test]
fn dry_runs_list_without_deleting() {
    let mut deletion = SplitDeletion::new(true);
    assert!(matches!(deletion.on_page(&infos(&["a", "b", "c"])), PageStep::Skip));
    assert!(matches!(
        deletion.page_done(infos(&["a", "b", "c"]), &vec![], false),
        NextPage::Done
    ));
    assert_eq!(deletion.deleted.len(), 3);
}

#[test]
fn every_page_is_deleted() {
    let mut deletion = SplitDeletion::new(false);
    assert!(matches!(
        deletion.on_page(&infos(&["a", "b"])),
        PageStep::Delete(ids) if ids == ["a", "b"]
    ));
    assert!(matches!(deletion.page_done(infos(&["a", "b"]), &vec![], true), NextPage::List));
    assert!(matches!(deletion.on_page(&infos(&[])), PageStep::Skip));
    assert!(matches!(deletion.page_done(infos(&["c"]), &vec![], false), NextPage::Done));
    let ids: Vec<&str> = deletion.deleted.iter().map(|info| info.split_id.as_str()).collect();
    assert_eq!(ids, ["a", "b", "c"]);
}

#[test]
fn failed_deletions_are_reported_for_retry() {
    let mut deletion = SplitDeletion::new(false);
    let next = deletion.page_done(
        infos(&["a", "b"]),
        &vec!["a".to_string(), "b".to_string()],
        true,
    );
    match next {
        NextPage::Failed(error) => assert_eq!(
            error,
            "failed to delete Parquet splits: [\"a\", \"b\"]; index metadata and checkpoints \
             retained for retry"
        ),
        other => panic!("{other:?}"),
    }
    assert!(deletion.deleted.is_empty());
}

#[test]
fn resolver_uses_type_not_name() {
    for (name, index_type, expected_kind) in [
        ("cpu", IndexType::Metrics, Some(ParquetSplitKind::Metrics)),
        ("latencies", IndexType::Sketches, Some(ParquetSplitKind::Sketches)),
        ("metrics-logs", IndexType::Tantivy, None),
    ] {
        let reply = IndexMetadataReply::Found {
            index_uid: format!("{name}:0"),
            index_uri: "ram:///indexes/test".to_string(),
            index_type,
        };
        let resolved = resolve(reply).unwrap();
        assert_eq!(resolved.map(|index| index.split_kind), expected_kind);
    }
    let listed = |index_id: &str, index_type| ListedIndex {
        index_id: index_id.to_string(),
        index_type,
    };
    assert_eq!(
        list_parquet_index_names(&vec![
            listed("cpu", IndexType::Metrics),
            listed("latencies", IndexType::Sketches),
            listed("metrics-logs", IndexType::Tantivy),
        ]),
        ["cpu", "latencies"]
    );
}

#[test]
fn resolver_only_swallows_not_found() {
    assert!(resolve(IndexMetadataReply::NotFound).unwrap().is_none());
    assert_eq!(
        resolve(IndexMetadataReply::Failed("offline".to_string())).unwrap_err(),
        "offline"
    );
}

#[test]
fn pipelines_say_which_part_is_missing() {
    assert_eq!(
        pipeline_error(PipelinePart::IndexingDirectory, "full"),
        "failed to create indexing directory: full"
    );
    assert_eq!(
        pipeline_error(PipelinePart::Storage, "offline"),
        "failed to spawn metrics pipeline: offline"
    );
    assert_eq!(
        pipeline_error(PipelinePart::PartitionKey, "syntax"),
        "failed to parse partition_key: syntax"
    );
    assert_eq!(partition_key(None), "");
    assert_eq!(partition_key(Some("tenant".to_string())), "tenant");
    assert_eq!(
        indexing_directory("i".into(), "0".into(), "s".into(), "p".into()),
        ["i", "0", "s", "p"]
    );
}

fn split_metadata(maturity: SplitMaturity) -> SplitMetadata {
    SplitMetadata {
        split_id: "split".to_string(),
        index_uid: "index:0".to_string(),
        source_id: "source".to_string(),
        node_id: "node".to_string(),
        doc_mapping_uid: 1,
        partition_id: 2,
        num_docs: 3,
        uncompressed_docs_size_in_bytes: 4,
        time_range: Some(TimeRange { start: -1, end: 1 }),
        create_timestamp: 5,
        tags: vec!["tag".to_string()],
        delete_opstamp: 6,
        num_merge_ops: 7,
        maturity,
        footer_offsets: FooterOffsets { start: 0, end: 0 },
    }
}

#[test]
fn test_split_recovery_metadata_preserves_maturity() {
    let split = split_metadata(SplitMaturity::Immature {
        maturation_period_nanos: 1_500_000_000,
    });
    let recovery = create_split_recovery_metadata(&split, &vec![]);
    assert_eq!(recovery.maturation_period_millis, Some(1_500));
    assert_eq!(recovery.maturity(), split.maturity);

    let mature = split_metadata(SplitMaturity::Mature);
    let recovery = create_split_recovery_metadata(&mature, &vec![]);
    assert_eq!(recovery.maturation_period_millis, None);
    assert_eq!(recovery.maturity(), SplitMaturity::Mature);
}

#[test]
fn recovery_metadata_holds_the_split_and_its_parents() {
    let split = split_metadata(SplitMaturity::Mature);
    let recovery = create_split_recovery_metadata(&split, &vec!["p1".into(), "p2".into()]);
    assert_eq!(recovery.split_id, "split");
    assert_eq!(recovery.num_docs, 3);
    assert_eq!(recovery.time_range_start_inclusive, Some(-1));
    assert_eq!(recovery.time_range_end_inclusive, Some(1));
    assert_eq!(recovery.tags, ["tag"]);
    assert_eq!(recovery.num_merge_ops, 7);
    assert_eq!(recovery.parent_split_ids, ["p1", "p2"]);
    let completed = with_footer(split, FooterOffsets { start: 10, end: 20 });
    assert_eq!(completed.footer_offsets, FooterOffsets { start: 10, end: 20 });
}

fn packaged(split_id: &str, index_uid: &str, replaced: &[&str]) -> PackagedSplit {
    PackagedSplit {
        split_id: split_id.to_string(),
        index_uid: index_uid.to_string(),
        replaced_split_ids: replaced.iter().map(|id| id.to_string()).collect(),
    }
}

#[test]
fn tantivy_batches_are_of_one_incarnation() {
    assert_eq!(
        check_batch(&vec![]),
        Err("packaged split batch must not be empty".to_string())
    );
    assert_eq!(
        check_batch(&vec![packaged("a", "i:0", &[]), packaged("b", "i:1", &[])]),
        Err("mixed index incarnations in upload batch".to_string())
    );
    let batch = vec![packaged("a", "i:0", &["x", "y"]), packaged("b", "i:0", &["y", "z"])];
    assert_eq!(check_batch(&batch), Ok(()));
    let mut replaced = replaced_split_ids(&batch);
    replaced.sort();
    assert_eq!(replaced, ["x", "y", "z"]);
    let reports = report_splits(&batch, &"s3://splits".to_string());
    assert_eq!(reports[1].split_id, "b");
    assert_eq!(reports[1].storage_uri, "s3://splits");
}

#[test]
fn tantivy_publications_name_their_splits() {
    let batch = vec![packaged("split", "i:0", &["x"])];
    let update: SplitUpdate<SplitMetadata, u32, u32> = quickwit::tantivy::into_update(
        &batch,
        vec![with_footer(
            split_metadata(SplitMaturity::Mature),
            FooterOffsets { start: 10, end: 20 },
        )],
        Some(1),
        None,
    );
    let request = publish_request(&update, Some("{}".to_string()), None);
    assert_eq!(request.index_uid, "i:0");
    assert_eq!(request.staged_split_ids, ["split"]);
    assert_eq!(request.replaced_split_ids, ["x"]);
    assert_eq!(quickwit::tantivy::record_published(&update), (1, 3, 20));

    let empty: SplitUpdate<SplitMetadata, u32, u32> = empty_update("i:0".to_string(), 4);
    assert_eq!(empty.checkpoint_delta_opt, Some(4));
    assert_eq!(quickwit::tantivy::record_published(&empty), (0, 0, 0));
}

#[test]
fn uploaders_are_named_after_their_role() {
    assert_eq!(tantivy_actor_name(UploaderType::MergeUploader), "MergeUploader");
    assert_eq!(
        parquet_actor_name(UploaderType::IndexUploader),
        "ParquetUploader(IndexUploader)"
    );
    assert_eq!(tantivy_actor_name(UploaderType::DeleteUploader), "DeleteUploader");
}

#[test]
fn the_first_uploader_sets_the_budget() {
    let mut budget = UploadBudget::new("indexer".to_string(), "merger".to_string());
    assert_eq!(budget.acquire(UploaderType::IndexUploader, 4), (4, "indexer".to_string()));
    assert_eq!(budget.acquire(UploaderType::IndexUploader, 8), (4, "indexer".to_string()));
    assert_eq!(budget.acquire(UploaderType::DeleteUploader, 2), (2, "merger".to_string()));
    assert_eq!(budget.acquire(UploaderType::MergeUploader, 9), (2, "merger".to_string()));
}

#[test]
fn uploads_stage_before_they_store() {
    let mut counters = UploaderCounters::default();
    let mut step = begin_upload(false);
    let mut steps = vec![step];
    while step != UploadStep::Done {
        step = after_upload_step(step, true, 3, &mut counters);
        steps.push(step);
    }
    assert_eq!(
        steps,
        [
            UploadStep::Prepare,
            UploadStep::Stage,
            UploadStep::Upload,
            UploadStep::Send,
            UploadStep::Done
        ]
    );
    assert_eq!(counters.num_staged_splits, 3);
    counters.uploaded();
    assert_eq!(counters.num_uploaded_splits, 1);

    // A dead lock discards; a failure faults, and nothing counts as staged.
    assert_eq!(begin_upload(true), UploadStep::Discard);
    let mut counters = UploaderCounters::default();
    assert_eq!(
        after_upload_step(UploadStep::Discard, true, 3, &mut counters),
        UploadStep::Done
    );
    assert_eq!(
        after_upload_step(UploadStep::Stage, false, 3, &mut counters),
        UploadStep::Fault
    );
    assert_eq!(counters.num_staged_splits, 0);
    assert_eq!(upload_fault("boom"), "upload failed: boom");
    assert_eq!(
        dropped_task_fault(false),
        Some("upload task ended before completion".to_string())
    );
    assert_eq!(dropped_task_fault(true), None);
}

#[test]
fn places_are_reserved_before_permits() {
    let mut step = AdmissionStep::EarlierUploads;
    let mut steps = vec![step];
    while step != AdmissionStep::Spawn {
        step = after_admission_step(step, true);
        steps.push(step);
    }
    assert_eq!(
        steps,
        [
            AdmissionStep::EarlierUploads,
            AdmissionStep::Reserve,
            AdmissionStep::AcquirePermit,
            AdmissionStep::CheckKillSwitch,
            AdmissionStep::Spawn
        ]
    );
    assert_eq!(
        after_admission_step(AdmissionStep::Reserve, false),
        AdmissionStep::Refuse
    );
    assert_eq!(
        after_admission_step(AdmissionStep::CheckKillSwitch, false),
        AdmissionStep::Killed
    );
}

#[test]
fn merge_pipelines_report_restarts_and_drains() {
    let index_uid = "test-index:0".to_string();
    assert!(matches!(
        record_restart(&index_uid, &vec![parquet_split("a"), parquet_split("b")]),
        MergePipelineEvent::Restart { re_seeded_immature_split_ids, .. }
            if re_seeded_immature_split_ids == ["a", "b"]
    ));
    assert!(matches!(
        record_drained(&index_uid, DrainMessage::DisconnectMergePlanner),
        MergePipelineEvent::DisconnectMergePlanner { index_uid } if index_uid == "test-index:0"
    ));
    assert!(matches!(
        record_drained(&index_uid, DrainMessage::RunFinalizeMergePolicyAndQuit),
        MergePipelineEvent::RunFinalizeAndQuit { finalize_merges_emitted: 0, .. }
    ));
}

#[test]
fn closed_sequencers_are_reported() {
    assert_eq!(discard(PublicationRoute::Publisher, false), Ok(()));
    assert_eq!(discard(PublicationRoute::Sequencer, true), Ok(()));
    assert_eq!(
        discard(PublicationRoute::Sequencer, false),
        Err("failed to discard publication: sequencer is closed".to_string())
    );
    assert_eq!(deliver(true), Ok(()));
    assert_eq!(
        deliver(false),
        Err("failed to deliver publication: sequencer is closed".to_string())
    );
}

#[test]
fn earlier_failures_are_in_the_way() {
    assert_eq!(earlier_uploads(&vec![TaskEnd::Success]), Ok(()));
    assert_eq!(
        earlier_uploads(&vec![
            TaskEnd::Success,
            TaskEnd::Failed("first".to_string()),
            TaskEnd::Panicked("second".to_string()),
        ]),
        Err("first".to_string())
    );
}

#[test]
fn upload_failure_while_draining_is_reported() {
    let mut shutdown = Shutdown::begin(true);
    assert!(!shutdown.task_ended(&TaskEnd::Success));
    assert!(shutdown.task_ended(&TaskEnd::Failed("put failed".to_string())));
    // The others are cancelled now, which is no further failure.
    assert!(!shutdown.task_ended(&TaskEnd::Cancelled("cancelled".to_string())));
    assert_eq!(shutdown.finish(), Err("put failed".to_string()));
}

#[test]
fn failed_generations_keep_their_status() {
    let mut shutdown = Shutdown::begin(false);
    assert!(!shutdown.task_ended(&TaskEnd::Cancelled("cancelled".to_string())));
    assert!(shutdown.task_ended(&TaskEnd::Failed("put failed".to_string())));
    assert_eq!(shutdown.finish(), Ok(()));

    let mut shutdown = Shutdown::begin(false);
    shutdown.task_ended(&TaskEnd::Panicked("panic".to_string()));
    assert_eq!(shutdown.finish(), Err("panic".to_string()));

    let mut shutdown = Shutdown::begin(true);
    assert!(shutdown.task_ended(&TaskEnd::Cancelled("unasked".to_string())));
    assert_eq!(shutdown.finish(), Err("unasked".to_string()));
}

#[test]
fn successful_shutdown_drains() {
    let mut shutdown = Shutdown::begin(true);
    shutdown.task_ended(&TaskEnd::Success);
    assert_eq!(shutdown.finish(), Ok(()));
}

#[test]
fn splits_of_all_states_are_deleted() {
    assert_eq!(
        deleted_split_states(),
        [SplitState::Staged, SplitState::Published, SplitState::MarkedForDeletion]
    );
}
