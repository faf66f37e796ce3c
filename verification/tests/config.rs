use bytes::Bytes;
use quickwit::bench::{draw_line, make_body, message_char, write_body, LogLine};
use quickwit::config::{IngestV3Config, IngestV3ConfigError, IngestV3Env};
use quickwit::gc::{IngestWalGcReport, ShardPosition, SourceAnswer};
use quickwit::janitor::{list_shard_positions, IngestWalGarbageCollector, ListShardsReply};
use quickwit::mrecordlog_utils::{
    append_encoded_mrecords, check_enough_capacity, encode_doc_batch, wal_stats,
    AppendDocBatchError, AppendOutcome, LogUsage, NotEnoughCapacityError, QueueSummary,
};
use quickwit::position::{Position, PublishPosition};
use rand::rngs::StdRng;
use rand::SeedableRng;

fn env(enabled: bool, wal_uri: Option<&str>) -> IngestV3Env {
    IngestV3Env {
        enabled,
        wal_uri: wal_uri.map(|uri| Ok(uri.to_string())),
        flush_interval_millis: None,
        flush_num_bytes: None,
        fetch_fallback_grace_secs: None,
        gc_min_age_secs: None,
    }
}

#[test]
fn configuration_is_off_unless_enabled() {
    assert!(IngestV3Config::from_env(env(false, Some("s3://wal"))).unwrap().is_none());
}

#[test]
fn missing_uri_is_an_error() {
    let error = IngestV3Config::from_env(env(true, None)).unwrap_err();
    assert_eq!(error, IngestV3ConfigError::MissingWalUri);
    assert_eq!(
        error.to_text(),
        "`QW_ENABLE_INGEST_V3` is set but `QW_INGEST_WAL_URI` is missing"
    );
}

#[test]
fn invalid_uri_is_an_error() {
    let mut invalid = env(true, None);
    invalid.wal_uri = Some(Err("failed to parse empty URI".to_string()));
    let error = IngestV3Config::from_env(invalid).unwrap_err();
    assert_eq!(
        error,
        IngestV3ConfigError::InvalidWalUri("failed to parse empty URI".to_string())
    );
    assert_eq!(error.to_text(), "failed to parse empty URI");

    let mut disabled = env(false, None);
    disabled.wal_uri = Some(Err("failed to parse empty URI".to_string()));
    assert!(IngestV3Config::from_env(disabled).unwrap().is_none());
}

#[test]
fn defaults_and_overrides() {
    let config = IngestV3Config::from_env(env(true, Some("s3://wal"))).unwrap().unwrap();
    assert_eq!(config.wal_uri, "s3://wal");
    assert_eq!(config.flush_interval_millis, 250);
    assert_eq!(config.flush_num_bytes, 8 * 1024 * 1024);
    assert_eq!(config.max_buffered_num_bytes, 256 * 1024 * 1024);
    assert_eq!(config.fetch_fallback_grace_secs, 60);
    assert_eq!(config.gc_min_age_secs, 600);

    let mut overridden = env(true, Some("s3://wal"));
    overridden.flush_interval_millis = Some(10);
    overridden.flush_num_bytes = Some(64 * 1024 * 1024);
    overridden.fetch_fallback_grace_secs = Some(5);
    overridden.gc_min_age_secs = Some(6);
    let config = IngestV3Config::from_env(overridden).unwrap().unwrap();
    assert_eq!(config.flush_interval_millis, 10);
    assert_eq!(config.flush_num_bytes, 64 * 1024 * 1024);
    // The buffer grows with the objects.
    assert_eq!(config.max_buffered_num_bytes, 512 * 1024 * 1024);
    assert_eq!(config.fetch_fallback_grace_secs, 5);
    assert_eq!(config.gc_min_age_secs, 6);

    let mut small = env(true, Some("s3://wal"));
    small.flush_num_bytes = Some(1);
    let config = IngestV3Config::from_env(small).unwrap().unwrap();
    assert_eq!(config.max_buffered_num_bytes, 256 * 1024 * 1024);
}

#[test]
fn forced_commits_add_a_record() {
    let docs = vec![Bytes::from("a"), Bytes::from("b")];
    let commit = Bytes::from("commit");
    assert_eq!(encode_doc_batch(docs.clone(), commit.clone(), false), docs);
    assert_eq!(
        encode_doc_batch(docs.clone(), commit.clone(), true),
        vec![docs[0].clone(), docs[1].clone(), commit]
    );
}

#[test]
fn append_outcomes_are_told_apart() {
    assert!(matches!(
        append_encoded_mrecords(AppendOutcome::Appended(2)),
        Ok(Position::Offset(2))
    ));
    let missing = append_encoded_mrecords(AppendOutcome::MissingQueue("q".to_string()));
    assert!(matches!(&missing, Err(AppendDocBatchError::QueueNotFound(_))));
    assert_eq!(missing.unwrap_err().to_text(), "WAL queue `q` not found");
    let failed = append_encoded_mrecords(AppendOutcome::Io("denied".to_string()));
    assert_eq!(failed.unwrap_err().to_text(), "IO error: denied");
}

#[test]
fn capacity_is_checked_on_disk_first() {
    let usage = LogUsage { disk_used_bytes: 0, memory_used_bytes: 0 };
    assert!(matches!(
        check_enough_capacity(usage, 0, 0, 12),
        Err(NotEnoughCapacityError::Disk { usage: 0, capacity: 0, requested: 12 })
    ));
    assert!(matches!(
        check_enough_capacity(usage, 256_000_000, 11, 12),
        Err(NotEnoughCapacityError::Memory { usage: 0, capacity: 11, requested: 12 })
    ));
    assert_eq!(check_enough_capacity(usage, 256_000_000, 12, 12), Ok(()));
}

#[test]
fn stats_add_up_queues() {
    assert_eq!(wal_stats(None, &vec![]), (0, 0, 0));
    let usage = LogUsage { disk_used_bytes: 5, memory_used_bytes: 7 };
    let queues = vec![
        QueueSummary { start: 3, end: Some(4) },
        QueueSummary { start: 0, end: None },
        QueueSummary { start: 9, end: Some(8) },
    ];
    // A queue whose records were all truncated ends before it starts.
    assert_eq!(wal_stats(Some(usage), &queues), (7, 5, 2));
}

#[test]
fn passes_are_counted() {
    let mut collector = IngestWalGarbageCollector::new(60);
    assert_eq!(collector.params.min_age_nanos, 60);
    assert!(!collector.params.dry_run);
    collector.start_pass();
    let report = IngestWalGcReport {
        num_logs: 1,
        num_objects: 5,
        num_deleted_objects: 2,
        num_deleted_bytes: 100,
        num_skipped_objects: 0,
        num_failed_deletions: 1,
    };
    assert_eq!(collector.record(&report), 3);
    collector.start_pass();
    collector.fail_pass();
    assert_eq!(collector.counters.num_passes, 2);
    assert_eq!(collector.counters.num_failed_passes, 1);
    assert_eq!(collector.counters.num_deleted_objects, 2);
    assert_eq!(collector.counters.num_deleted_bytes, 100);
    assert_eq!(collector.counters.num_failed_deletions, 1);
}

fn shard(shard_id: &str, offset: u64) -> ShardPosition {
    ShardPosition { shard_id: shard_id.to_string(), position: PublishPosition::At(Position::Offset(offset)) }
}

#[test]
fn missing_sources_are_gone() {
    assert!(matches!(
        list_shard_positions(&ListShardsReply::NotFound),
        SourceAnswer::Gone
    ));
    assert!(matches!(
        list_shard_positions(&ListShardsReply::Failed),
        SourceAnswer::Failed
    ));
    let reply = ListShardsReply::Shards(vec![
        vec![shard("1", 10), shard("2", 20)],
        vec![shard("1", 11)],
    ]);
    match list_shard_positions(&reply) {
        SourceAnswer::Shards(positions) => {
            assert_eq!(positions.len(), 2);
            assert_eq!(positions[0].shard_id, "1");
            assert_eq!(positions[0].position, PublishPosition::At(Position::Offset(11)));
            assert_eq!(positions[1].position, PublishPosition::At(Position::Offset(20)));
        }
        _ => panic!("the source has shards"),
    }
}

#[test]
fn bodies_are_json_lines() {
    let line = LogLine { msg: "a".repeat(60), level: 2, service: 4, latency_ms: 7 };
    let other = LogLine { msg: "b ".repeat(40), level: 0, service: 0, latency_ms: 4_999 };
    let body = String::from_utf8(write_body(1_700_000_000_000, 41, &vec![line, other])).unwrap();
    let lines: Vec<&str> = body.lines().collect();
    assert_eq!(
        lines[0],
        format!(
            "{{\"ts\": 1700000000000, \"seq\": 41, \"level\": \"ERROR\", \"service\": \"ingest\", \
             \"msg\": \"{}\", \"latency_ms\": 7}}",
            "a".repeat(60)
        )
    );
    assert!(lines[1].starts_with("{\"ts\": 1700000000000, \"seq\": 42, \"level\": \"INFO\""));
    assert!(body.ends_with("\"latency_ms\": 4999}\n"));
}

#[test]
fn drawn_lines_are_plausible() {
    let mut rng = StdRng::seed_from_u64(42);
    let mut lengths = Vec::new();
    for _ in 0..200 {
        let line = draw_line(&mut rng);
        assert!((60..160).contains(&line.msg.len()));
        assert!(line.msg.chars().all(|c| c == ' ' || c.is_ascii_lowercase()));
        assert!(line.level < 4 && line.service < 5);
        assert!((1..5_000).contains(&line.latency_ms));
        lengths.push(line.msg.len());
    }
    lengths.sort();
    lengths.dedup();
    assert!(lengths.len() > 10);
    let body = make_body(&mut rng, 5, 3, 100);
    assert_eq!(String::from_utf8(body).unwrap().lines().count(), 3);
    assert_eq!(message_char(0), 'a');
    assert_eq!(message_char(25), 'z');
    assert_eq!(message_char(26), ' ');
}
