use persistent_db_core::bench::{
    run_section14_benchmark, validate_index_use_evidence_json_for_test, validate_section14_evidence_json_for_test,
    DB_BENCH_PASS_SENTINEL, EVIDENCE_PATH,
};
use std::sync::OnceLock;

const DB_BENCH_SENTINEL: &str =
    "DB_BENCH: PASS evidence=target/bench_acceptance/section14-benchmark-acceptance.json\n";
static DB_BENCH_RESULT: OnceLock<CommandResult> = OnceLock::new();

struct CommandResult {
    code: Option<i32>,
    stdout: String,
    stderr: String,
    evidence: String,
}

fn db_bench_result() -> &'static CommandResult {
    DB_BENCH_RESULT.get_or_init(|| match run_section14_benchmark() {
        Ok(json) => CommandResult {
            code: Some(0),
            stdout: format!("{DB_BENCH_PASS_SENTINEL}\n"),
            stderr: String::new(),
            evidence: String::from_utf8(json).expect("evidence should be UTF-8"),
        },
        Err(error) => CommandResult {
            code: Some(1),
            stdout: String::new(),
            stderr: format!("check={} reason={}\n", error.check_id(), error.reason()),
            evidence: String::new(),
        },
    })
}

fn assert_json_contains(json: &str, needle: &str) {
    let compact: String = json.chars().filter(|ch| !ch.is_whitespace()).collect();
    let compact_needle: String = needle.chars().filter(|ch| !ch.is_whitespace()).collect();
    assert!(compact.contains(&compact_needle), "evidence JSON missing {needle:?}\n{json}");
}

fn equality_entries(count: usize) -> String {
    (0..count)
        .map(|n| {
            let key = ((140014 + n * 433) % 10000) + 1;
            format!(
                r#"{{"query_kind":"secondary_equality","predicate":"group_key = {key}","expected_access_path":"secondary_index_equality","observed_access_path":"secondary_index_equality","used_index":"idx_section14_bench_group_key","scan_rejected":true,"indexed_result_count":10,"scan_result_count":10,"indexed_result_hash":1,"scan_result_hash":1,"result_hash_match":true}}"#
            )
        })
        .collect::<Vec<_>>()
        .join(",")
}

fn range_entries(count: usize) -> String {
    (0..count)
        .map(|n| {
            let low = ((140014 + n * 137) % 9950) + 1;
            let high = low + 49;
            format!(
                r#"{{"query_kind":"secondary_range","predicate":"group_key BETWEEN {low} AND {high}","expected_access_path":"secondary_index_range","observed_access_path":"secondary_index_range","used_index":"idx_section14_bench_group_key","scan_rejected":true,"indexed_result_count":500,"scan_result_count":500,"indexed_result_hash":1,"scan_result_hash":1,"result_hash_match":true}}"#
            )
        })
        .collect::<Vec<_>>()
        .join(",")
}

#[test]
fn hard_fail_validator_rejects_partial_equality_proof_coverage() {
    let range_entries = range_entries(50);
    let invalid = format!(r#"{{"artifact":"v1-section14-benchmark-acceptance","index_use_evidence":[{range_entries}]}}"#);
    let error = validate_index_use_evidence_json_for_test(&invalid).expect_err("missing equality proof coverage must be rejected");
    assert_eq!("indexed_equality_no_full_scan", error.check_id());
}

#[test]
fn hard_fail_validator_rejects_partial_range_proof_coverage() {
    let equality_entries = equality_entries(100);
    let invalid = format!(r#"{{"artifact":"v1-section14-benchmark-acceptance","index_use_evidence":[{equality_entries}]}}"#);
    let error = validate_index_use_evidence_json_for_test(&invalid).expect_err("missing range proof coverage must be rejected");
    assert_eq!("indexed_range_no_full_scan", error.check_id());
}

#[test]
fn hard_fail_validator_rejects_indexed_equality_full_scan_evidence() {
    let invalid = r#"{
        "index_use_evidence": [
            {
                "query_kind": "secondary_equality",
                "predicate": "group_key = 42",
                "expected_access_path": "secondary_index_equality",
                "observed_access_path": "full_scan",
                "used_index": "",
                "scan_rejected": false,
                "indexed_result_count": 10,
                "scan_result_count": 10,
                "result_hash_match": true
            }
        ]
    }"#;
    let error = validate_index_use_evidence_json_for_test(invalid).expect_err("eligible equality full scan must be rejected");
    assert_eq!("indexed_equality_no_full_scan", error.check_id());
}

#[test]
fn hard_fail_validator_rejects_indexed_range_full_scan_evidence() {
    let invalid = r#"{
        "index_use_evidence": [
            {
                "query_kind": "secondary_range",
                "predicate": "group_key BETWEEN 42 AND 91",
                "expected_access_path": "secondary_index_range",
                "observed_access_path": "full_scan",
                "used_index": "",
                "scan_rejected": false,
                "indexed_result_count": 500,
                "scan_result_count": 500,
                "result_hash_match": true
            }
        ]
    }"#;
    let error = validate_index_use_evidence_json_for_test(invalid).expect_err("eligible range full scan must be rejected");
    assert_eq!("indexed_range_no_full_scan", error.check_id());
}

#[test]
fn full_artifact_with_all_index_proofs_passes() {
    let valid = format!(
        r#"{{"artifact":"v1-section14-benchmark-acceptance","index_use_evidence":[{},{}]}}"#,
        equality_entries(100),
        range_entries(50)
    );
    assert!(validate_index_use_evidence_json_for_test(&valid).is_ok());
}

#[test]
fn partial_coverage_reason_names_the_count() {
    let invalid = format!(r#"{{"artifact":"v1-section14-benchmark-acceptance","index_use_evidence":[{}]}}"#, equality_entries(7));
    let error = validate_index_use_evidence_json_for_test(&invalid).expect_err("seven equality proofs are too few");
    assert_eq!("indexed_equality_no_full_scan", error.check_id());
    assert_eq!("expected 100 equality proofs, got 7", error.reason());
}

#[test]
fn evidence_outside_the_full_artifact_needs_no_count() {
    let partial = format!(r#"{{"index_use_evidence":[{}]}}"#, equality_entries(3));
    assert!(validate_index_use_evidence_json_for_test(&partial).is_ok());
}

#[test]
fn mismatched_result_counts_fail_the_proof() {
    let invalid = r#"{"index_use_evidence":[{"query_kind":"secondary_equality","observed_access_path":"secondary_index_equality","used_index":"idx_section14_bench_group_key","scan_rejected":true,"indexed_result_count":10,"scan_result_count":11,"result_hash_match":true}]}"#;
    let error = validate_index_use_evidence_json_for_test(invalid).expect_err("count mismatch must be rejected");
    assert_eq!("indexed_equality_no_full_scan", error.check_id());
    assert_eq!("eligible equality query failed index proof", error.reason());
}

#[test]
fn db_bench_generates_section14_evidence_schema() {
    let output = db_bench_result();

    assert_eq!(Some(0), output.code, "db bench should pass; stdout={:?}; stderr={:?}", output.stdout, output.stderr);
    assert_eq!("", output.stderr);
    assert_eq!(DB_BENCH_SENTINEL, output.stdout);
    assert!(DB_BENCH_SENTINEL.contains(EVIDENCE_PATH));

    let json = &output.evidence;
    for required in [
        "\"schema_version\"",
        "\"artifact\":\"v1-section14-benchmark-acceptance\"",
        "\"row_count\":100000",
        "\"primary_key_type\":\"INTEGER\"",
        "\"secondary_index_column\":\"group_key\"",
        "\"secondary_index_name\":\"idx_section14_bench_group_key\"",
        "\"text_bytes_min\":8",
        "\"text_bytes_max\":64",
        "\"deterministic_seed\":140014",
        "\"warmup_runs\":1",
        "\"measurement_runs\":5",
        "\"runtime_cap_seconds\"",
        "\"commands\"",
        "\"workload\"",
        "\"metrics\"",
        "\"recovery\"",
        "\"index_use_evidence\"",
        "\"hard_fail_checks\"",
        "\"result\"",
    ] {
        assert_json_contains(json, required);
    }
    assert_json_contains(json, "\"verify_bench_acceptance\":{\"status\":\"pending\"");
    assert_json_contains(json, "\"result\":\"pending\"");
}

#[test]
fn db_bench_records_required_metrics_recovery_and_index_proof() {
    let output = db_bench_result();
    assert_eq!(Some(0), output.code, "stdout={:?}; stderr={:?}", output.stdout, output.stderr);

    let json = &output.evidence;
    for required in [
        "\"sequential_insert_elapsed_ms\"",
        "\"insert_throughput_rows_per_sec\"",
        "\"primary_key_lookup_median_ms\"",
        "\"secondary_equality_indexed_median_ms\"",
        "\"secondary_equality_scan_median_ms\"",
        "\"range_indexed_median_ms\"",
        "\"range_scan_median_ms\"",
        "\"equality_index_speedup\"",
        "\"range_index_speedup\"",
        "\"db_file_bytes\"",
        "\"wal_file_bytes\"",
        "\"committed_transaction_count\":10000",
        "\"wal_replay_applied_records\":10000",
        "\"recovered_row_count\":10000",
        "\"recovery_ms\"",
        "\"representative_lookup_result\"",
        "\"query_kind\":\"secondary_equality\"",
        "\"query_kind\":\"secondary_range\"",
        "\"expected_access_path\"",
        "\"observed_access_path\"",
        "\"used_index\":\"idx_section14_bench_group_key\"",
        "\"scan_rejected\":true",
        "\"result_hash_match\":true",
        "\"primary_key_lookup\"",
        "\"keys\"",
        "\"secondary_equality\"",
        "\"secondary_range\"",
        "\"range_window_distinct_group_keys\":50",
        "\"selectivity_fraction\":0.005",
        "\"scan_comparison\"",
        "\"mode\":\"explicit_harness_full_scan\"",
        "\"measured_counts_by_run\"",
        "\"primary_key_lookup\":100",
        "\"secondary_equality_indexed\":100",
        "\"secondary_equality_scan\":100",
        "\"range_indexed\":50",
        "\"range_scan\":50",
        "\"check_id\":\"dataset_contract\",\"status\":\"pass\"",
        "\"check_id\":\"equality_speedup\",\"status\":\"pass\"",
        "\"check_id\":\"range_speedup\",\"status\":\"pass\"",
        "\"check_id\":\"indexed_equality_no_full_scan\",\"status\":\"pass\"",
        "\"check_id\":\"indexed_range_no_full_scan\",\"status\":\"pass\"",
        "\"check_id\":\"recovery_proportionality\",\"status\":\"pass\"",
        "\"check_id\":\"wal_replay_applied_records\",\"status\":\"pass\"",
        "\"check_id\":\"no_retry_required\",\"status\":\"pass\"",
    ] {
        assert_json_contains(json, required);
    }
}

#[test]
fn hard_fail_validator_rejects_below_threshold_equality_speedup() {
    let invalid = r#"{
        "row_count": 100000,
        "metrics": {
            "secondary_equality_indexed_median_ms": 10.0,
            "secondary_equality_scan_median_ms": 49.0,
            "equality_index_speedup": 4.9,
            "range_index_speedup": 3.1
        },
        "recovery": {
            "wal_file_bytes": 4096,
            "recovery_ms": 1,
            "committed_transaction_count": 10000,
            "recovered_row_count": 10000,
            "representative_lookup_result": {"matched": true}
        }
    }"#;

    let error = validate_section14_evidence_json_for_test(invalid).expect_err("equality speedup below 5.0 must be rejected");
    assert_eq!("equality_speedup", error.check_id());
}

#[test]
fn hard_fail_validator_rejects_below_threshold_range_speedup() {
    let invalid = r#"{
        "row_count": 100000,
        "metrics": {
            "secondary_equality_indexed_median_ms": 10.0,
            "secondary_equality_scan_median_ms": 50.0,
            "equality_index_speedup": 5.0,
            "range_indexed_median_ms": 10.0,
            "range_scan_median_ms": 29.0,
            "range_index_speedup": 2.9
        },
        "recovery": {
            "wal_file_bytes": 4096,
            "recovery_ms": 1,
            "committed_transaction_count": 10000,
            "recovered_row_count": 10000,
            "representative_lookup_result": {"matched": true}
        }
    }"#;

    let error = validate_section14_evidence_json_for_test(invalid).expect_err("range speedup below 3.0 must be rejected");
    assert_eq!("range_speedup", error.check_id());
}

#[test]
fn hard_fail_validator_rejects_recovery_proportionality_violation() {
    let invalid = r#"{
        "row_count": 100000,
        "metrics": {
            "secondary_equality_indexed_median_ms": 10.0,
            "secondary_equality_scan_median_ms": 50.0,
            "equality_index_speedup": 5.0,
            "range_indexed_median_ms": 10.0,
            "range_scan_median_ms": 30.0,
            "range_index_speedup": 3.0
        },
        "recovery": {
            "wal_file_bytes": 4096,
            "wal_replay_applied_records": 10000,
            "recovery_ms": 2001,
            "committed_transaction_count": 10000,
            "recovered_row_count": 10000,
            "representative_lookup_result": {"matched": true}
        }
    }"#;

    let error = validate_section14_evidence_json_for_test(invalid)
        .expect_err("recovery_ms above max(2000, wal_file_bytes / 4096) must be rejected");
    assert_eq!("recovery_proportionality", error.check_id());
}

#[test]
fn hard_fail_validator_rejects_missing_wal_replay_apply_count() {
    let invalid = r#"{
        "row_count": 100000,
        "metrics": {
            "secondary_equality_indexed_median_ms": 10.0,
            "secondary_equality_scan_median_ms": 50.0,
            "equality_index_speedup": 5.0,
            "range_indexed_median_ms": 10.0,
            "range_scan_median_ms": 30.0,
            "range_index_speedup": 3.0
        },
        "recovery": {
            "wal_file_bytes": 4096,
            "recovery_ms": 1,
            "committed_transaction_count": 10000,
            "recovered_row_count": 10000,
            "representative_lookup_result": {"matched": true}
        }
    }"#;

    let error = validate_section14_evidence_json_for_test(invalid)
        .expect_err("recovery evidence must prove 10000 WAL records were applied");
    assert_eq!("recovery_contract", error.check_id());
}

#[test]
fn hard_fail_validator_uses_recovery_wal_file_bytes_for_recovery_bound() {
    let invalid = r#"{
        "row_count": 100000,
        "metrics": {
            "secondary_equality_indexed_median_ms": 10.0,
            "secondary_equality_scan_median_ms": 50.0,
            "equality_index_speedup": 5.0,
            "range_indexed_median_ms": 10.0,
            "range_scan_median_ms": 30.0,
            "range_index_speedup": 3.0,
            "wal_file_bytes": 18478090
        },
        "recovery": {
            "wal_file_bytes": 4096,
            "wal_replay_applied_records": 10000,
            "recovery_ms": 2001,
            "committed_transaction_count": 10000,
            "recovered_row_count": 10000,
            "representative_lookup_result": {"matched": true}
        }
    }"#;

    let error = validate_section14_evidence_json_for_test(invalid)
        .expect_err("recovery bound must use recovery.wal_file_bytes, not metrics.wal_file_bytes");
    assert_eq!("recovery_proportionality", error.check_id());
}

fn passing_section(recovery_ms: &str, wal_file_bytes: &str, matched: &str) -> String {
    format!(
        r#"{{"metrics":{{"secondary_equality_indexed_median_ms":10.0,"secondary_equality_scan_median_ms":50.0,"equality_index_speedup":5.0,"range_indexed_median_ms":10.0,"range_scan_median_ms":30.0,"range_index_speedup":3.0}},"recovery":{{"wal_file_bytes":{wal_file_bytes},"wal_replay_applied_records":10000,"recovery_ms":{recovery_ms},"committed_transaction_count":10000,"recovered_row_count":10000,"representative_lookup_result":{{"matched":{matched}}}}}}}"#
    )
}

#[test]
fn section14_validator_accepts_consistent_evidence() {
    assert!(validate_section14_evidence_json_for_test(&passing_section("1", "4096", "true")).is_ok());
    assert!(validate_section14_evidence_json_for_test(&passing_section("2000", "4096", "true")).is_ok());
}

#[test]
fn recovery_bound_grows_with_the_log() {
    // 2001 ms is within the bound once the log holds more than 2000 * 4096 bytes.
    assert!(validate_section14_evidence_json_for_test(&passing_section("2001", "8196096", "true")).is_ok());
    let error = validate_section14_evidence_json_for_test(&passing_section("2001", "8192000", "true")).unwrap_err();
    assert_eq!("recovery_proportionality", error.check_id());
}

#[test]
fn zero_recovery_time_is_rejected() {
    let error = validate_section14_evidence_json_for_test(&passing_section("0", "4096", "true")).unwrap_err();
    assert_eq!("recovery_proportionality", error.check_id());
    assert_eq!("recovery_ms exceeded proportionality bound", error.reason());
}

#[test]
fn unmatched_representative_is_rejected() {
    let error = validate_section14_evidence_json_for_test(&passing_section("1", "4096", "false")).unwrap_err();
    assert_eq!("recovery_contract", error.check_id());
    assert_eq!("representative lookup did not match", error.reason());
}

#[test]
fn speedup_must_agree_with_its_medians() {
    let json = r#"{"metrics":{"secondary_equality_indexed_median_ms":10.0,"secondary_equality_scan_median_ms":50.0,"equality_index_speedup":5.5}}"#;
    let error = validate_section14_evidence_json_for_test(json).unwrap_err();
    assert_eq!("equality_speedup", error.check_id());
    assert_eq!("equality speedup failed indexed=10.000000 scan=50.000000 speedup=5.500000", error.reason());
}

#[test]
fn missing_median_names_its_key() {
    let error = validate_section14_evidence_json_for_test("{}").unwrap_err();
    assert_eq!("equality_speedup", error.check_id());
    assert_eq!("missing \"secondary_equality_indexed_median_ms\":", error.reason());
}

#[test]
fn full_artifact_must_state_its_dataset() {
    let json = passing_section("1", "4096", "true").replace("{\"metrics\"", "{\"artifact\":\"v1-section14-benchmark-acceptance\",\"row_count\":100000,\"metrics\"");
    let error = validate_section14_evidence_json_for_test(&json).unwrap_err();
    assert_eq!("dataset_contract", error.check_id());
    assert_eq!("missing \"primary_key_type\":\"INTEGER\"", error.reason());
}
