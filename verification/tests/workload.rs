use persistent_db_core::bench::elapsed_from_nanos;
use persistent_db_core::evidence::{build_proof, median};
use persistent_db_core::fixed::{number_at_exec, push_fixed3, push_fixed6, push_fixed9};
use persistent_db_core::sql::QueryPath;
use persistent_db_core::workload::{
    build_rows, count_rows, deterministic_payload, equality_keys, explicit_scan_output, group_key_for_id,
    payload_len_for_id, primary_key_lookup_ids, primary_key_queries, range_queries, range_windows, row_output,
    section14_insert_sql, stable_hash, BenchRow,
};

fn text(bytes: &[u8]) -> String {
    String::from_utf8(bytes.to_vec()).expect("output should be UTF-8")
}

#[test]
fn generated_rows_follow_the_documented_formulas() {
    assert_eq!(((7919 + 140014) % 10_000) + 1, group_key_for_id(1));
    assert_eq!(7934, group_key_for_id(1));
    assert_eq!(8 + ((17 + 140014) % 57), payload_len_for_id(1));
    let rows = build_rows(3);
    assert_eq!(3, rows.len());
    assert_eq!(2, rows[1].id);
    assert_eq!(group_key_for_id(2), rows[1].group_key);
    assert_eq!(payload_len_for_id(3), rows[2].payload.len());
    assert!(rows.iter().all(|row| (8..=64).contains(&row.payload.len())));
}

#[test]
fn payload_letters_cycle_through_the_alphabet() {
    // (1 + 0 + 140014) % 26 == 5, so the first letter is 'f'.
    assert_eq!(b"fghij".to_vec(), deterministic_payload(1, 5));
    assert_eq!(b"opqr".to_vec(), deterministic_payload(10, 4));
}

#[test]
fn query_keys_follow_the_documented_rules() {
    let ids = primary_key_lookup_ids();
    assert_eq!(100, ids.len());
    assert_eq!(40015, ids[0]);
    assert_eq!(((140014 + 99 * 9973) % 100_000) + 1, ids[99]);
    let keys = equality_keys();
    assert_eq!(15, keys[0]);
    let windows = range_windows();
    assert_eq!(50, windows.len());
    assert_eq!((715, 764), windows[0]);
    assert_eq!("SELECT * FROM bench_items WHERE id = 40015;", primary_key_queries()[0]);
    assert_eq!("SELECT * FROM bench_items WHERE group_key BETWEEN 715 AND 764;", range_queries()[0]);
}

#[test]
fn insert_sql_creates_table_index_and_rows() {
    let rows = vec![BenchRow { id: 7, group_key: 3, payload: b"abc".to_vec() }];
    let sql = text(&section14_insert_sql(&rows));
    assert_eq!(
        "CREATE TABLE bench_items(id INTEGER PRIMARY KEY, group_key INTEGER, payload TEXT); CREATE INDEX idx_section14_bench_group_key ON bench_items(group_key); INSERT INTO bench_items VALUES (7, 3, 'abc');",
        sql
    );
}

#[test]
fn explicit_scan_orders_matches_by_group_key_then_row() {
    let rows = vec![
        BenchRow { id: 1, group_key: 5, payload: b"a".to_vec() },
        BenchRow { id: 2, group_key: 4, payload: b"b".to_vec() },
        BenchRow { id: 3, group_key: 5, payload: b"c".to_vec() },
        BenchRow { id: 4, group_key: 9, payload: b"d".to_vec() },
    ];
    assert_eq!("id|group_key|payload\n2|4|b\n1|5|a\n3|5|c\n", text(&explicit_scan_output(&rows, 4, 5)));
    assert_eq!("id|group_key|payload\n1|5|a\n3|5|c\n", text(&explicit_scan_output(&rows, 5, 5)));
    assert_eq!("id|group_key|payload\n", text(&explicit_scan_output(&rows, 6, 8)));
    assert_eq!("id|group_key|payload\n4|9|d\n", text(&row_output(&rows[3])));
}

#[test]
fn count_rows_skips_the_header_line() {
    assert_eq!(0, count_rows(b""));
    assert_eq!(0, count_rows(b"id|group_key|payload\n"));
    assert_eq!(2, count_rows(b"h\n1\n2\n"));
    assert_eq!(2, count_rows(b"h\n1\n2"));
}

#[test]
fn stable_hash_is_fnv1a() {
    assert_eq!(14_695_981_039_346_656_037u64, stable_hash(b""));
    assert_eq!(0xaf63_dc4c_8601_ec8c, stable_hash(b"a"));
    assert_ne!(stable_hash(b"ab"), stable_hash(b"ba"));
}

#[test]
fn fixed_point_numbers_print_with_fixed_decimals() {
    let mut out = Vec::new();
    push_fixed9(&mut out, 1_500_000_000);
    assert_eq!("1.500000000", text(&out));
    let mut out = Vec::new();
    push_fixed9(&mut out, 7);
    assert_eq!("0.000000007", text(&out));
    let mut out = Vec::new();
    push_fixed3(&mut out, 2_345_600_000);
    assert_eq!("2.346", text(&out));
    let mut out = Vec::new();
    push_fixed6(&mut out, 10_000_000_000);
    assert_eq!("10.000000", text(&out));
}

#[test]
fn numbers_read_back_in_billionths() {
    assert_eq!(Some(5_000_000_000), number_at_exec(b"x:5.0,", 2));
    assert_eq!(Some(4_900_000_000), number_at_exec(b"4.9", 0));
    assert_eq!(Some(500_000_000), number_at_exec(b".5}", 0));
    assert_eq!(Some(7_000_000_000), number_at_exec(b"7.", 0));
    assert_eq!(Some(123_456_789), number_at_exec(b"0.1234567891", 0));
    assert_eq!(None, number_at_exec(b"1.2.3", 0));
    assert_eq!(None, number_at_exec(b".", 0));
    assert_eq!(None, number_at_exec(b"abc", 0));
    assert_eq!(None, number_at_exec(b"99999999999", 0));
}

#[test]
fn median_takes_the_middle_of_the_sorted_values() {
    assert_eq!(3, median(&vec![5, 1, 3, 4, 2]));
    assert_eq!(7, median(&vec![7]));
    assert_eq!(4, median(&vec![4, 1, 9, 2]));
}

#[test]
fn proofs_record_the_observed_path() {
    let output = b"id|group_key|payload\n1|5|a\n".to_vec();
    let path = QueryPath::SecondaryIndexEquality {
        table: b"bench_items".to_vec(),
        index: b"idx".to_vec(),
        column: b"group_key".to_vec(),
    };
    let proof = build_proof(true, &String::from("SELECT * FROM t WHERE group_key = 5;"), &output, &output, &path)
        .unwrap_or_else(|_| panic!("well-formed equality query"));
    assert_eq!(b"group_key = 5".to_vec(), proof.predicate);
    assert_eq!("secondary_index_equality", proof.observed_access_path);
    assert_eq!(b"idx".to_vec(), proof.used_index);
    assert_eq!(1, proof.indexed_result_count);
    assert!(proof.result_hash_match);
    let scan = QueryPath::FullTableScan { table: b"bench_items".to_vec() };
    let proof = build_proof(false, &String::from("SELECT * FROM t WHERE group_key BETWEEN 1 AND 2;"), &output, &output, &scan)
        .unwrap_or_else(|_| panic!("well-formed range query"));
    assert_eq!(b"group_key BETWEEN 1 AND 2".to_vec(), proof.predicate);
    assert_eq!("full_scan", proof.observed_access_path);
    assert!(proof.used_index.is_empty());
    match build_proof(true, &String::from("SELECT * FROM t WHERE id = 5;"), &output, &output, &path) {
        Ok(_) => panic!("a query without the key must be refused"),
        Err(error) => assert_eq!("index_use_evidence", error.check_id()),
    }
}

#[test]
fn clock_readings_convert_to_billionths_of_a_millisecond() {
    assert_eq!(1_000_000, elapsed_from_nanos(0, 1_000_000));
    assert_eq!(2_500_000, elapsed_from_nanos(2_500, 1_000_000));
    assert_eq!(7_000, elapsed_from_nanos(7, 0));
    assert_eq!(u64::MAX, elapsed_from_nanos(u64::MAX as u128, 0));
    assert_eq!(u64::MAX, elapsed_from_nanos((u64::MAX / 1000) as u128, 5));
}

#[test]
fn scan_window_may_reach_the_largest_key() {
    let rows = vec![
        BenchRow { id: 1, group_key: usize::MAX, payload: b"a".to_vec() },
        BenchRow { id: 2, group_key: 4, payload: b"b".to_vec() },
    ];
    let none = text(&explicit_scan_output(&rows, usize::MAX - 2, usize::MAX - 1));
    assert!(none.starts_with("id|group_key|payload\n") && !none.contains("|a"));
    let out = text(&explicit_scan_output(&rows, usize::MAX - 2, usize::MAX));
    assert!(out.starts_with(&format!("id|group_key|payload\n1|{}|a\n", usize::MAX)));
}
