//! Settings of the server, its queries and its coordination.

use std::sync::atomic::Ordering;

use ampc_core::config::{
    default_di_2d_bucket_thresholds, default_face_bucket_thresholds, default_max_rows_per_job_1d,
    default_max_rows_per_job_2d, default_max_sync_failures_before_reset, default_min_1d_job_size,
    default_min_1d_job_size_mirror, default_min_1d_job_size_reauth,
    default_min_1d_job_size_recovery, default_min_2d_job_size, default_min_2d_job_size_mirror,
    default_min_2d_job_size_reauth, default_min_2d_job_size_recovery, default_min_face_job_size,
    default_min_face_job_size_reauth, default_n_buckets_1d, default_n_buckets_1d_nhd,
    default_n_buckets_1d_reauth, default_n_buckets_2d, default_n_buckets_2d_nhd,
    default_n_buckets_2d_reauth, default_poll_interval_secs, default_schema_name,
    default_shutdown_last_results_sync_timeout_secs, deserialize_yaml_json_i16,
    deserialize_yaml_json_string, AnonStatsServerConfig, ConfigError, Opt,
    ServerCoordinationConfig,
};
use ampc_core::coordination::{
    build_coordination_config, healthcheck_port, CoordinationHandles, ServerEvent, ServerState,
};
use ampc_core::shares::Share;
use ampc_core::store::{
    check_inserted, clear_unprocessed_sql, get_available_sql, insert_ranges, insert_sql,
    mark_processed_sql, num_available_face_sql, num_available_sql, AnonStatsTable, FaceFetch,
    MissingRows, ANON_STATS_INSERT_BATCH_SIZE,
};

#[test]
fn test_deser_i16_vec() {
    let s = r#""[-1000,0,1000,2000]""#;
    let text = serde_json::from_str::<String>(s).unwrap();
    let v = deserialize_yaml_json_i16(&text).unwrap();
    assert_eq!(v, vec![-1000, 0, 1000, 2000]);
}

#[test]
fn lists_are_read_from_json() {
    assert_eq!(deserialize_yaml_json_i16("[]"), Ok(vec![]));
    assert_eq!(deserialize_yaml_json_i16(" [ 1 , -2 ] "), Ok(vec![1, -2]));
    for text in ["", "[1", "1", "[1.5]", "[40000]", "[\"1\"]"] {
        assert_eq!(
            deserialize_yaml_json_i16(text),
            Err(ConfigError::InvalidJson),
            "{text}"
        );
    }
    assert_eq!(
        deserialize_yaml_json_string(r#"["a","b c",""]"#),
        Ok(vec!["a".to_string(), "b c".to_string(), String::new()])
    );
    assert_eq!(
        deserialize_yaml_json_string("[1]"),
        Err(ConfigError::InvalidJson)
    );
}

#[test]
fn defaults_are_the_documented_ones() {
    let face = default_face_bucket_thresholds();
    assert_eq!(face.len(), 60);
    assert_eq!((face[0], face[1], face[59]), (-2000, -1900, 3900));
    let di = default_di_2d_bucket_thresholds();
    assert_eq!(di.len(), 802);
    assert_eq!((di[0], di[1], di[800], di[801]), (-1000, -995, 3000, 4000));
    assert_eq!(default_n_buckets_1d(), 10);
    assert_eq!(default_n_buckets_1d_reauth(), 20);
    assert_eq!(default_n_buckets_2d(), 10);
    assert_eq!(default_n_buckets_2d_reauth(), 15);
    assert_eq!(default_n_buckets_1d_nhd(), 400);
    assert_eq!(default_n_buckets_2d_nhd(), 400);
    assert_eq!(default_min_1d_job_size(), 1000);
    assert_eq!(default_min_1d_job_size_reauth(), 1000);
    assert_eq!(default_min_1d_job_size_recovery(), 1000);
    assert_eq!(default_min_1d_job_size_mirror(), 1000);
    assert_eq!(default_min_2d_job_size(), 1000);
    assert_eq!(default_min_2d_job_size_reauth(), 1000);
    assert_eq!(default_min_2d_job_size_recovery(), 1000);
    assert_eq!(default_min_2d_job_size_mirror(), 1000);
    assert_eq!(default_min_face_job_size(), 1000);
    assert_eq!(default_min_face_job_size_reauth(), 1000);
    assert_eq!(default_max_rows_per_job_1d(), 100_000);
    assert_eq!(default_max_rows_per_job_2d(), 10_000);
    assert_eq!(default_schema_name(), "anon_stats_mpc");
    assert_eq!(default_poll_interval_secs(), 30);
    assert_eq!(default_max_sync_failures_before_reset(), 3);
    assert_eq!(default_shutdown_last_results_sync_timeout_secs(), 10);
}

#[test]
fn job_limits_are_checked() {
    let config = AnonStatsServerConfig::test_default();
    assert_eq!(config.validate_config(), Ok(()));

    let raise_1d: [fn(&mut AnonStatsServerConfig); 6] = [
        |c| c.min_1d_job_size = 1,
        |c| c.min_1d_job_size_reauth = 1,
        |c| c.min_1d_job_size_recovery = 1,
        |c| c.min_1d_job_size_mirror = 1,
        |c| c.min_face_job_size = 1,
        |c| c.min_face_job_size_reauth = 1,
    ];
    for raise in raise_1d {
        let mut config = AnonStatsServerConfig::test_default();
        raise(&mut config);
        assert_eq!(
            config.validate_job_limits(),
            Err(ConfigError::MaxRowsPerJob1d)
        );
        config.max_rows_per_job_1d = 1;
        assert_eq!(config.validate_job_limits(), Ok(()));
    }
    let raise_2d: [fn(&mut AnonStatsServerConfig); 4] = [
        |c| c.min_2d_job_size = 1,
        |c| c.min_2d_job_size_reauth = 1,
        |c| c.min_2d_job_size_recovery = 1,
        |c| c.min_2d_job_size_mirror = 1,
    ];
    for raise in raise_2d {
        let mut config = AnonStatsServerConfig::test_default();
        raise(&mut config);
        assert_eq!(
            config.validate_job_limits(),
            Err(ConfigError::MaxRowsPerJob2d)
        );
        config.max_rows_per_job_2d = 1;
        assert_eq!(config.validate_job_limits(), Ok(()));
    }
}

fn coordination(party_id: usize) -> ServerCoordinationConfig {
    ServerCoordinationConfig {
        party_id,
        node_hostnames: vec!["a".to_string(), "b".to_string()],
        healthcheck_ports: vec!["3000".to_string()],
        image_name: "image".to_string(),
        http_query_retry_delay_ms: 1,
        startup_sync_timeout_secs: 2,
        heartbeat_interval_secs: 3,
        heartbeat_initial_retries: 4,
    }
}

#[test]
fn loading_takes_the_party_of_the_coordination() {
    let mut loaded = AnonStatsServerConfig::test_default();
    loaded.party_id = 1;
    let config = AnonStatsServerConfig::load_config(loaded).unwrap();
    assert_eq!(config.party_id, 1);
    assert!(build_coordination_config(&config).is_none());

    let mut loaded = AnonStatsServerConfig::test_default();
    loaded.server_coordination = Some(coordination(2));
    let mut config = AnonStatsServerConfig::load_config(loaded).unwrap();
    assert_eq!(config.party_id, 2);

    let mut loaded = AnonStatsServerConfig::test_default();
    loaded.min_2d_job_size = 1;
    assert_eq!(
        AnonStatsServerConfig::load_config(loaded).err(),
        Some(ConfigError::MaxRowsPerJob2d)
    );

    config.overwrite_defaults_with_cli_args(Opt {
        party_id: Some(0),
        addresses: None,
        healthcheck_port: None,
        results_topic_arn: None,
    });
    assert_eq!(config.party_id, 0);
    assert_eq!(config.results_topic_arn, "test");
    config.overwrite_defaults_with_cli_args(Opt {
        party_id: None,
        addresses: Some(vec![]),
        healthcheck_port: Some(1),
        results_topic_arn: Some("topic".to_string()),
    });
    assert_eq!(config.party_id, 0);
    assert_eq!(config.results_topic_arn, "topic");

    // The party of the settings goes before the one that the coordination names.
    let built = build_coordination_config(&config).unwrap();
    assert_eq!(built.party_id, 0);
    assert_eq!(built.node_hostnames, vec!["a", "b"]);
    assert_eq!(built.healthcheck_ports, vec!["3000"]);
    assert_eq!(built.image_name, "image");
    assert_eq!(
        (
            built.http_query_retry_delay_ms,
            built.startup_sync_timeout_secs,
            built.heartbeat_interval_secs,
            built.heartbeat_initial_retries
        ),
        (1, 2, 3, 4)
    );
}

#[test]
fn ports_are_read_for_the_party() {
    let texts = [
        "3000",
        "+7",
        "-8",
        "",
        "-",
        "12x",
        "2147483647",
        "2147483648",
        "-2147483648",
        "-2147483649",
        "0009",
    ];
    let ports: Vec<String> = texts.iter().map(|p| p.to_string()).collect();
    for (party, text) in texts.iter().enumerate() {
        let expected = text.parse::<i32>().unwrap_or(8080);
        assert_eq!(healthcheck_port(&ports, party), expected, "{text}");
    }
    assert_eq!(healthcheck_port(&ports, ports.len()), 8080);
}

#[test]
fn a_server_that_shuts_down_stays_so() {
    let started = ServerState::started();
    assert_eq!(started, ServerState { ready: false, shutting_down: false });
    let ready = started.step(ServerEvent::Ready);
    assert_eq!(ready, ServerState { ready: true, shutting_down: false });
    let stopped = ready.step(ServerEvent::ShutDown);
    assert_eq!(stopped, ServerState { ready: false, shutting_down: true });
    assert!(stopped.step(ServerEvent::Ready).shutting_down);
}

#[test]
fn flags_are_shared_with_their_handles() {
    let handles = CoordinationHandles::new();
    let ready = handles.ready_flag();
    let stopping = handles.shutting_down_flag();
    assert!(!ready.load(Ordering::SeqCst));
    assert!(!stopping.load(Ordering::SeqCst));
    handles.set_ready();
    assert!(ready.load(Ordering::SeqCst));
    assert!(!stopping.load(Ordering::SeqCst));
    handles.mark_shutting_down();
    assert!(stopping.load(Ordering::SeqCst));
}

#[test]
fn queries_name_their_table() {
    assert_eq!(
        num_available_sql(AnonStatsTable::OneDim, false),
        "SELECT COUNT(*) FROM anon_stats_1d WHERE processed = FALSE AND origin = $1"
    );
    assert_eq!(
        num_available_sql(AnonStatsTable::TwoDim, true),
        "SELECT COUNT(*) FROM anon_stats_2d WHERE processed = FALSE AND origin = $1 AND operation = $2"
    );
    assert_eq!(
        get_available_sql(AnonStatsTable::OneDimLifted, false),
        "SELECT id, match_id, bundle FROM anon_stats_1d_lifted WHERE processed = FALSE and origin = $1 ORDER BY id ASC LIMIT $2"
    );
    assert_eq!(
        get_available_sql(AnonStatsTable::TwoDimLifted, true),
        "SELECT id, match_id, bundle FROM anon_stats_2d_lifted WHERE processed = FALSE and origin = $1 AND operation = $2 ORDER BY id ASC LIMIT $3"
    );
    assert_eq!(
        mark_processed_sql(AnonStatsTable::Face),
        "UPDATE anon_stats_face SET processed = TRUE WHERE id = ANY($1)"
    );
    assert_eq!(
        clear_unprocessed_sql(AnonStatsTable::OneDim, true),
        "DELETE FROM anon_stats_1d WHERE processed = FALSE AND origin = $1 AND operation = $2"
    );
    assert_eq!(
        clear_unprocessed_sql(AnonStatsTable::Face, false),
        "DELETE FROM anon_stats_face WHERE processed = FALSE AND origin = $1"
    );
    assert_eq!(
        insert_sql(AnonStatsTable::TwoDim),
        "INSERT INTO anon_stats_2d (match_id, bundle, origin, operation)"
    );
    assert_eq!(
        num_available_face_sql(),
        "SELECT COALESCE(SUM(bundle_size), 0) FROM anon_stats_face WHERE processed = FALSE and origin = $1"
    );
}

#[test]
fn inserts_are_split_into_batches() {
    assert_eq!(ANON_STATS_INSERT_BATCH_SIZE, 10_000);
    assert_eq!(insert_ranges(0), vec![]);
    assert_eq!(insert_ranges(1), vec![(0, 1)]);
    assert_eq!(insert_ranges(10_000), vec![(0, 10_000)]);
    assert_eq!(
        insert_ranges(25_001),
        vec![(0, 10_000), (10_000, 20_000), (20_000, 25_001)]
    );
    assert_eq!(check_inserted(3, 3), Ok(()));
    assert_eq!(
        check_inserted(3, 2),
        Err(MissingRows {
            expected: 3,
            inserted: 2
        })
    );
}

#[test]
fn face_distances_are_fetched_until_there_are_enough() {
    let mut fetch = FaceFetch::new(3);
    assert!(!fetch.take(7, 70, vec![Share::new(1, 2), Share::new(3, 4)], 2));
    assert!(fetch.take(9, 90, vec![Share::new(5, 6)], 1));
    assert_eq!(fetch.fetched, 3);
    assert_eq!(fetch.ids, vec![7, 9]);
    assert_eq!(fetch.query_ids, vec![70, 90]);
    assert_eq!(
        fetch.distances,
        vec![Share::new(1, 2), Share::new(3, 4), Share::new(5, 6)]
    );
}

#[test]
fn a_fetch_takes_the_first_rows() {
    let rows: Vec<(i64, i64, Vec<Share<u16>>)> = (1..=5_u16)
        .map(|k| {
            let bundle = (0..k).map(|i| Share::new(k, i)).collect();
            (k as i64, 10 * k as i64, bundle)
        })
        .collect();
    for (limit, taken) in [(0, 0), (1, 1), (2, 1), (5, 2), (6, 3), (7, 3), (15, 5), (99, 5)] {
        let mut fetch = FaceFetch::new(limit);
        for (id, query_id, bundle) in &rows {
            if fetch.take(*id, *query_id, bundle.clone(), bundle.len()) {
                break;
            }
        }
        let first = &rows[..taken];
        assert_eq!(fetch.ids, first.iter().map(|r| r.0).collect::<Vec<_>>());
        assert_eq!(fetch.query_ids, first.iter().map(|r| r.1).collect::<Vec<_>>());
        let distances: Vec<_> = first.iter().flat_map(|r| r.2.clone()).collect();
        assert!(distances.len() <= limit);
        assert_eq!(fetch.distances, distances);
    }
}

#[test]
fn face_distances_stay_within_the_limit() {
    // A bundle that does not fit is left, and fetching is done.
    let mut fetch = FaceFetch::new(1);
    assert!(fetch.take(7, 70, vec![Share::new(1, 2), Share::new(3, 4)], 2));
    assert_eq!(fetch.fetched, 0);
    assert!(fetch.ids.is_empty() && fetch.query_ids.is_empty() && fetch.distances.is_empty());

    let mut fetch = FaceFetch::new(0);
    assert!(fetch.take(7, 70, vec![Share::new(1, 2)], 1));
    assert!(fetch.ids.is_empty());

    let mut fetch = FaceFetch::new(2);
    assert!(!fetch.take(1, 10, vec![Share::new(1, 2)], 1));
    assert!(fetch.take(2, 20, vec![Share::new(3, 4), Share::new(5, 6)], 2));
    assert_eq!(fetch.ids, vec![1]);
    assert_eq!(fetch.distances, vec![Share::new(1, 2)]);
    assert!(fetch.take(3, 30, vec![Share::new(7, 8)], usize::MAX));
    assert_eq!(fetch.fetched, 1);
}
