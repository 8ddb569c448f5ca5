use persistent_db_core::check::check_database;
use persistent_db_core::index::SecondaryIndex;
use persistent_db_core::sql::{execute, plan_query_path_for_test, DatabaseFiles, QueryPath};
use persistent_db_core::storage::PageStore;

const SQL_RECORD_PREFIX: &[u8; 8] = b"PDBSQL1\0";
const INVALID_SQL_STORAGE_STDERR: &str = "error: invalid SQL storage record: unknown record tag\nhint: run against a database file created by this SQL contract or restore from a valid backup.\n";

struct EmbeddedIndexEntry<'a> {
    build_id: u64,
    index_name: &'a str,
    indexed_key: i64,
    tie_break: i64,
    row_position: u64,
}

#[derive(Debug, PartialEq, Eq)]
struct DecodedSecondaryMetadata {
    build_id: u64,
    index_name: String,
    table_name: String,
    indexed_column: u16,
    tie_break_mode: u8,
}

#[derive(Debug, PartialEq, Eq)]
struct DecodedSecondaryEntry {
    build_id: u64,
    index_name: String,
    indexed_key: i64,
    tie_break: i64,
    row_position: u64,
}

fn new_files() -> DatabaseFiles {
    DatabaseFiles { data: None, wal: None }
}

fn assert_exec(files: &mut DatabaseFiles, sql: &str, code: i32, expected_stdout: &str, expected_stderr: &str) {
    let (actual_code, out, err) = match execute(files, sql) {
        Ok(out) => (0, String::from_utf8(out).expect("stdout should be UTF-8"), String::new()),
        Err(error) => {
            let (text, code) = error.report();
            (code, String::new(), String::from_utf8(text).expect("stderr should be UTF-8"))
        }
    };
    assert_eq!(code, actual_code, "unexpected exit; stdout={:?}; stderr={:?}", out, err);
    assert_eq!(expected_stdout, out);
    assert_eq!(expected_stderr, err);
}

fn check_output(files: &DatabaseFiles) -> (i32, String, String) {
    let path = String::from("test.pdb");
    match check_database(&path, files.data.as_deref(), files.wal.as_deref()) {
        Ok(()) => (0, String::from(persistent_db_core::check::SUCCESS_OUTPUT), String::new()),
        Err(error) => (1, String::new(), error.report()),
    }
}

fn assert_check_ok(files: &DatabaseFiles) {
    let (code, out, err) = check_output(files);
    assert_eq!(0, code, "db check should pass; stdout={:?}; stderr={:?}", out, err);
    assert_eq!("ok: db check passed\n", out);
    assert_eq!("", err);
}

fn assert_check_secondary_index_failure(files: &DatabaseFiles) {
    let (code, out, err) = check_output(files);
    assert_eq!(1, code, "db check should fail; stdout={:?}; stderr={:?}", out, err);
    assert_eq!("", out);
    assert_eq!("error: db check failed: secondary index\n", err);
}

fn append_fixture_record(files: &mut DatabaseFiles, payload: &[u8]) {
    let mut store = PageStore::open(files.data.take(), files.wal.take()).expect("fixture database should open");
    store.append_record(payload).expect("fixture record should append");
    files.data = Some(store.file_bytes().clone());
    files.wal = store.wal_bytes().cloned();
}

fn read_fixture_records(files: &DatabaseFiles) -> Vec<Vec<u8>> {
    PageStore::open(files.data.clone(), files.wal.clone())
        .expect("fixture database should open")
        .read_records()
        .expect("fixture records should read")
}

fn sql_record_kind(record: &[u8]) -> u8 {
    assert!(record.starts_with(SQL_RECORD_PREFIX), "fixture record should be a SQL logical record");
    record[SQL_RECORD_PREFIX.len()]
}

fn count_record_kind(records: &[Vec<u8>], kind: u8) -> usize {
    records.iter().filter(|record| sql_record_kind(record) == kind).count()
}

fn indexed_row_embedded_entry_count(record: &[u8]) -> u16 {
    assert_eq!(b'I', sql_record_kind(record));
    let mut offset = SQL_RECORD_PREFIX.len() + 1;
    let table_len = read_u16(record, &mut offset) as usize;
    offset += table_len;
    let value_count = read_u16(record, &mut offset);
    for _ in 0..value_count {
        offset += 1;
        let value_len = read_u32(record, &mut offset) as usize;
        offset += value_len;
    }
    read_u16(record, &mut offset)
}

fn decode_secondary_metadata(record: &[u8]) -> DecodedSecondaryMetadata {
    assert_eq!(b'X', sql_record_kind(record));
    let mut offset = SQL_RECORD_PREFIX.len() + 1;
    let build_id = read_u64(record, &mut offset);
    let index_name = read_string_u16(record, &mut offset);
    let table_name = read_string_u16(record, &mut offset);
    let indexed_column = read_u16(record, &mut offset);
    let tie_break_mode = record[offset];
    DecodedSecondaryMetadata { build_id, index_name, table_name, indexed_column, tie_break_mode }
}

fn decode_secondary_entry(record: &[u8]) -> DecodedSecondaryEntry {
    assert_eq!(b'E', sql_record_kind(record));
    let mut offset = SQL_RECORD_PREFIX.len() + 1;
    let build_id = read_u64(record, &mut offset);
    let index_name = read_string_u16(record, &mut offset);
    let indexed_key = read_u64(record, &mut offset) as i64;
    let tie_break = read_u64(record, &mut offset) as i64;
    let row_position = read_u64(record, &mut offset);
    DecodedSecondaryEntry { build_id, index_name, indexed_key, tie_break, row_position }
}

fn read_u16(record: &[u8], offset: &mut usize) -> u16 {
    let end = *offset + 2;
    let value = u16::from_le_bytes(record[*offset..end].try_into().expect("fixture should have u16 bytes"));
    *offset = end;
    value
}

fn read_u32(record: &[u8], offset: &mut usize) -> u32 {
    let end = *offset + 4;
    let value = u32::from_le_bytes(record[*offset..end].try_into().expect("fixture should have u32 bytes"));
    *offset = end;
    value
}

fn read_u64(record: &[u8], offset: &mut usize) -> u64 {
    let end = *offset + 8;
    let value = u64::from_le_bytes(record[*offset..end].try_into().expect("fixture should have u64 bytes"));
    *offset = end;
    value
}

fn read_string_u16(record: &[u8], offset: &mut usize) -> String {
    let len = read_u16(record, offset) as usize;
    let end = *offset + len;
    let value = String::from_utf8(record[*offset..end].to_vec()).expect("fixture string should be UTF-8");
    *offset = end;
    value
}

fn write_string_u16(record: &mut Vec<u8>, value: &str) {
    record.extend_from_slice(&(value.len() as u16).to_le_bytes());
    record.extend_from_slice(value.as_bytes());
}

fn catalog_record(table: &str, columns: &[(&str, u8, bool)]) -> Vec<u8> {
    let mut record = Vec::new();
    record.extend_from_slice(SQL_RECORD_PREFIX);
    record.push(b'C');
    write_string_u16(&mut record, table);
    record.extend_from_slice(&(columns.len() as u16).to_le_bytes());
    let mut primary_key = None;
    for (index, (name, column_type, is_primary_key)) in columns.iter().enumerate() {
        write_string_u16(&mut record, name);
        record.push(*column_type);
        if *is_primary_key {
            primary_key = Some(index as u16);
        }
    }
    if let Some(primary_key) = primary_key {
        record.push(b'P');
        record.extend_from_slice(&primary_key.to_le_bytes());
    }
    record
}

fn row_record(table: &str, values: &[(u8, &str)]) -> Vec<u8> {
    let mut record = Vec::new();
    record.extend_from_slice(SQL_RECORD_PREFIX);
    record.push(b'R');
    write_string_u16(&mut record, table);
    record.extend_from_slice(&(values.len() as u16).to_le_bytes());
    for (value_type, value) in values {
        record.push(*value_type);
        record.extend_from_slice(&(value.len() as u32).to_le_bytes());
        record.extend_from_slice(value.as_bytes());
    }
    record
}

fn secondary_index_metadata_record(build_id: u64, index_name: &str, table_name: &str, indexed_column: u16, tie_break_mode: u8) -> Vec<u8> {
    let mut record = Vec::new();
    record.extend_from_slice(SQL_RECORD_PREFIX);
    record.push(b'X');
    record.extend_from_slice(&build_id.to_le_bytes());
    write_string_u16(&mut record, index_name);
    write_string_u16(&mut record, table_name);
    record.extend_from_slice(&indexed_column.to_le_bytes());
    record.push(tie_break_mode);
    record
}

fn secondary_index_entry_record(build_id: u64, index_name: &str, indexed_key: i64, tie_break: i64, row_position: u64) -> Vec<u8> {
    let mut record = Vec::new();
    record.extend_from_slice(SQL_RECORD_PREFIX);
    record.push(b'E');
    record.extend_from_slice(&build_id.to_le_bytes());
    write_string_u16(&mut record, index_name);
    record.extend_from_slice(&indexed_key.to_le_bytes());
    record.extend_from_slice(&tie_break.to_le_bytes());
    record.extend_from_slice(&row_position.to_le_bytes());
    record
}

fn indexed_row_record(table: &str, values: &[(u8, &str)], embedded_entries: &[EmbeddedIndexEntry<'_>]) -> Vec<u8> {
    let mut record = Vec::new();
    record.extend_from_slice(SQL_RECORD_PREFIX);
    record.push(b'I');
    write_string_u16(&mut record, table);
    record.extend_from_slice(&(values.len() as u16).to_le_bytes());
    for (value_type, value) in values {
        record.push(*value_type);
        record.extend_from_slice(&(value.len() as u32).to_le_bytes());
        record.extend_from_slice(value.as_bytes());
    }
    record.extend_from_slice(&(embedded_entries.len() as u16).to_le_bytes());
    for entry in embedded_entries {
        record.extend_from_slice(&entry.build_id.to_le_bytes());
        write_string_u16(&mut record, entry.index_name);
        record.extend_from_slice(&entry.indexed_key.to_le_bytes());
        record.extend_from_slice(&entry.tie_break.to_le_bytes());
        record.extend_from_slice(&entry.row_position.to_le_bytes());
    }
    record
}

fn append_users_catalog_with_one_row(files: &mut DatabaseFiles) {
    append_fixture_record(
        files,
        &catalog_record("users", &[("id", b'I', true), ("age", b'I', false), ("score", b'I', false), ("name", b'T', false)]),
    );
    append_fixture_record(files, &row_record("users", &[(b'I', "1"), (b'I', "10"), (b'I', "100"), (b'T', "ada")]));
}

fn path_of(table: &str, index: &str, column: &str, range: bool) -> QueryPath {
    if range {
        QueryPath::SecondaryIndexRange { table: table.as_bytes().to_vec(), index: index.as_bytes().to_vec(), column: column.as_bytes().to_vec() }
    } else {
        QueryPath::SecondaryIndexEquality { table: table.as_bytes().to_vec(), index: index.as_bytes().to_vec(), column: column.as_bytes().to_vec() }
    }
}

#[test]
fn secondary_index_primitive_orders_equality_range_and_rejects_duplicate_entries() {
    let mut index = SecondaryIndex::new();
    index.insert(20, 3, 0).expect("entry should insert");
    index.insert(10, 1, 1).expect("entry should insert");
    index.insert(20, 2, 2).expect("entry should insert");
    assert_eq!(vec![2, 0], index.equality_positions(20));
    assert_eq!(vec![1, 2, 0], index.range_positions(10, 20));
    assert_eq!(Vec::<usize>::new(), index.equality_positions(99));
    assert_eq!(Vec::<usize>::new(), index.range_positions(30, 20));
    assert!(index.insert(20, 2, 99).is_err());
    assert_eq!(vec![2, 0], index.equality_positions(20), "duplicate insert must not overwrite the original row position");
}

#[test]
fn planner_path_marker_reports_secondary_equality_and_range_after_create_index() {
    let mut files = new_files();
    assert_exec(
        &mut files,
        "CREATE TABLE users (id INT PRIMARY KEY, age INT, name TEXT); INSERT INTO users VALUES (1, 20, 'ada'); CREATE INDEX idx_users_age ON users(age);",
        0,
        "",
        "",
    );
    assert_eq!(
        path_of("users", "idx_users_age", "age", false),
        plan_query_path_for_test(&mut files, "SELECT * FROM users WHERE age = 20;").expect("secondary equality should plan")
    );
    assert_eq!(
        path_of("users", "idx_users_age", "age", true),
        plan_query_path_for_test(&mut files, "SELECT * FROM users WHERE age BETWEEN 10 AND 20;").expect("secondary range should plan")
    );
}

#[test]
fn primary_key_column_with_secondary_index_uses_secondary_equality_and_range_paths() {
    let mut files = new_files();
    assert_exec(
        &mut files,
        "CREATE TABLE users (id INT PRIMARY KEY, age INT, name TEXT); INSERT INTO users VALUES (2, 20, 'bea'); INSERT INTO users VALUES (1, 10, 'ada'); CREATE INDEX idx_users_id ON users(id);",
        0,
        "",
        "",
    );
    assert_eq!(
        path_of("users", "idx_users_id", "id", false),
        plan_query_path_for_test(&mut files, "SELECT * FROM users WHERE id = 2;").expect("primary-key column equality should use explicit secondary index")
    );
    assert_eq!(
        path_of("users", "idx_users_id", "id", true),
        plan_query_path_for_test(&mut files, "SELECT * FROM users WHERE id BETWEEN 1 AND 2;").expect("primary-key column range should use explicit secondary index")
    );
    assert_exec(&mut files, "SELECT * FROM users WHERE id BETWEEN 1 AND 2;", 0, "id|age|name\n1|10|ada\n2|20|bea\n", "");
}

#[test]
fn indexed_range_with_low_greater_than_high_returns_header_only_through_range_path() {
    let mut files = new_files();
    assert_exec(
        &mut files,
        "CREATE TABLE users (id INT PRIMARY KEY, age INT, name TEXT); INSERT INTO users VALUES (1, 10, 'ada'); INSERT INTO users VALUES (2, 20, 'bea'); CREATE INDEX idx_users_age ON users(age);",
        0,
        "",
        "",
    );
    assert_eq!(
        path_of("users", "idx_users_age", "age", true),
        plan_query_path_for_test(&mut files, "SELECT * FROM users WHERE age BETWEEN 30 AND 20;")
            .expect("low-greater-than-high range should still plan through the secondary index")
    );
    assert_exec(&mut files, "SELECT * FROM users WHERE age BETWEEN 30 AND 20;", 0, "id|age|name\n", "");
}

#[test]
fn no_primary_key_duplicate_secondary_key_tie_breaks_by_insertion_order() {
    let mut files = new_files();
    assert_exec(
        &mut files,
        "CREATE TABLE users (age INT, name TEXT); INSERT INTO users VALUES (20, 'cal'); INSERT INTO users VALUES (10, 'ada'); INSERT INTO users VALUES (20, 'bea'); CREATE INDEX idx_users_age ON users(age); SELECT * FROM users WHERE age = 20;",
        0,
        "age|name\n20|cal\n20|bea\n",
        "",
    );
}

#[test]
fn old_no_index_database_reopens_then_backfills_and_post_index_insert_persists() {
    let mut files = new_files();
    append_fixture_record(&mut files, &catalog_record("users", &[("id", b'I', true), ("age", b'I', false), ("name", b'T', false)]));
    append_fixture_record(&mut files, &row_record("users", &[(b'I', "1"), (b'I', "10"), (b'T', "ada")]));
    append_fixture_record(&mut files, &row_record("users", &[(b'I', "2"), (b'I', "20"), (b'T', "bea")]));
    assert_exec(&mut files, "SELECT * FROM users;", 0, "id|age|name\n1|10|ada\n2|20|bea\n", "");
    assert_exec(&mut files, "CREATE INDEX idx_users_age ON users(age);", 0, "", "");
    assert_exec(&mut files, "INSERT INTO users VALUES (3, 20, 'cal');", 0, "", "");
    assert_exec(&mut files, "SELECT * FROM users WHERE age BETWEEN 10 AND 20;", 0, "id|age|name\n1|10|ada\n2|20|bea\n3|20|cal\n", "");
    assert_exec(&mut files, "SELECT * FROM users WHERE age = 20;", 0, "id|age|name\n2|20|bea\n3|20|cal\n", "");
}

#[test]
fn stale_orphan_backfill_entries_are_ignored_and_retry_commits_fresh_build_id() {
    let mut files = new_files();
    append_fixture_record(&mut files, &catalog_record("users", &[("id", b'I', true), ("age", b'I', false), ("name", b'T', false)]));
    append_fixture_record(&mut files, &row_record("users", &[(b'I', "1"), (b'I', "10"), (b'T', "ada")]));
    append_fixture_record(&mut files, &secondary_index_entry_record(2, "idx_users_age", 99, 9, 0));

    assert_check_ok(&files);
    assert_exec(&mut files, "CREATE INDEX idx_users_age ON users(age);", 0, "", "");
    assert_exec(&mut files, "SELECT * FROM users WHERE age = 10;", 0, "id|age|name\n1|10|ada\n", "");
    assert_exec(&mut files, "SELECT * FROM users WHERE age BETWEEN 10 AND 10;", 0, "id|age|name\n1|10|ada\n", "");
    assert_check_ok(&files);

    let records = read_fixture_records(&files);
    let stale_entries: Vec<DecodedSecondaryEntry> = records
        .iter()
        .filter(|record| sql_record_kind(record) == b'E')
        .map(|record| decode_secondary_entry(record))
        .filter(|entry| entry.build_id == 2)
        .collect();
    assert_eq!(
        vec![DecodedSecondaryEntry { build_id: 2, index_name: "idx_users_age".to_string(), indexed_key: 99, tie_break: 9, row_position: 0 }],
        stale_entries,
        "fixture must retain a distinguishable stale orphan entry"
    );
    let retry_metadata: Vec<DecodedSecondaryMetadata> = records
        .iter()
        .filter(|record| sql_record_kind(record) == b'X')
        .map(|record| decode_secondary_metadata(record))
        .collect();
    assert_eq!(
        vec![DecodedSecondaryMetadata {
            build_id: 3,
            index_name: "idx_users_age".to_string(),
            table_name: "users".to_string(),
            indexed_column: 1,
            tie_break_mode: b'P',
        }],
        retry_metadata,
        "retry must commit a fresh build id instead of attaching stale orphan entries"
    );
    let retry_entries: Vec<DecodedSecondaryEntry> = records
        .iter()
        .filter(|record| sql_record_kind(record) == b'E')
        .map(|record| decode_secondary_entry(record))
        .filter(|entry| entry.build_id == 3)
        .collect();
    assert_eq!(
        vec![DecodedSecondaryEntry { build_id: 3, index_name: "idx_users_age".to_string(), indexed_key: 10, tie_break: 1, row_position: 0 }],
        retry_entries,
        "retry must write a fresh valid backfill entry set"
    );
    let last_two_kinds: Vec<u8> = records.iter().rev().take(2).map(|record| sql_record_kind(record)).collect();
    assert_eq!(vec![b'X', b'E'], last_two_kinds, "retry must append fresh E records before the final X commit marker");
}

#[test]
fn db_check_reports_secondary_index_for_committed_entry_mismatch() {
    let mut files = new_files();
    append_fixture_record(&mut files, &catalog_record("users", &[("id", b'I', true), ("age", b'I', false), ("name", b'T', false)]));
    append_fixture_record(&mut files, &row_record("users", &[(b'I', "1"), (b'I', "10"), (b'T', "ada")]));
    append_fixture_record(&mut files, &secondary_index_entry_record(2, "idx_users_age", 99, 1, 0));
    append_fixture_record(&mut files, &secondary_index_metadata_record(2, "idx_users_age", "users", 1, b'P'));
    assert_check_secondary_index_failure(&files);
    assert_exec(&mut files, "SELECT * FROM users;", 1, "", INVALID_SQL_STORAGE_STDERR);
}

#[test]
fn db_check_secondary_index_corruption_matrix_reports_secondary_index() {
    let cases: Vec<(&str, fn(&mut DatabaseFiles))> = vec![
        ("missing_entry", |files| {
            append_users_catalog_with_one_row(files);
            append_fixture_record(files, &secondary_index_metadata_record(2, "idx_users_age", "users", 1, b'P'));
        }),
        ("wrong_key", |files| {
            append_users_catalog_with_one_row(files);
            append_fixture_record(files, &secondary_index_entry_record(2, "idx_users_age", 99, 1, 0));
            append_fixture_record(files, &secondary_index_metadata_record(2, "idx_users_age", "users", 1, b'P'));
        }),
        ("wrong_tie_break", |files| {
            append_users_catalog_with_one_row(files);
            append_fixture_record(files, &secondary_index_entry_record(2, "idx_users_age", 10, 9, 0));
            append_fixture_record(files, &secondary_index_metadata_record(2, "idx_users_age", "users", 1, b'P'));
        }),
        ("invalid_row_position", |files| {
            append_users_catalog_with_one_row(files);
            append_fixture_record(files, &secondary_index_entry_record(2, "idx_users_age", 10, 1, 9));
            append_fixture_record(files, &secondary_index_metadata_record(2, "idx_users_age", "users", 1, b'P'));
        }),
        ("duplicate_entry", |files| {
            append_users_catalog_with_one_row(files);
            append_fixture_record(files, &secondary_index_entry_record(2, "idx_users_age", 10, 1, 0));
            append_fixture_record(files, &secondary_index_entry_record(2, "idx_users_age", 10, 1, 0));
            append_fixture_record(files, &secondary_index_metadata_record(2, "idx_users_age", "users", 1, b'P'));
        }),
        ("missing_table_metadata", |files| {
            append_users_catalog_with_one_row(files);
            append_fixture_record(files, &secondary_index_entry_record(2, "idx_ghost_age", 10, 1, 0));
            append_fixture_record(files, &secondary_index_metadata_record(2, "idx_ghost_age", "ghosts", 1, b'P'));
        }),
        ("missing_column_metadata", |files| {
            append_users_catalog_with_one_row(files);
            append_fixture_record(files, &secondary_index_entry_record(2, "idx_users_missing", 10, 1, 0));
            append_fixture_record(files, &secondary_index_metadata_record(2, "idx_users_missing", "users", 99, b'P'));
        }),
        ("non_int_column_metadata", |files| {
            append_users_catalog_with_one_row(files);
            append_fixture_record(files, &secondary_index_metadata_record(2, "idx_users_name", "users", 3, b'P'));
        }),
        ("duplicate_index_metadata", |files| {
            append_fixture_record(files, &catalog_record("users", &[("id", b'I', true), ("age", b'I', false), ("name", b'T', false)]));
            append_fixture_record(files, &secondary_index_metadata_record(1, "idx_users_age", "users", 1, b'P'));
            append_fixture_record(files, &secondary_index_metadata_record(2, "IDX_USERS_AGE", "users", 1, b'P'));
        }),
    ];
    for (name, build_fixture) in cases {
        let mut files = new_files();
        build_fixture(&mut files);
        let (code, _, err) = check_output(&files);
        assert_eq!(1, code, "case {name} should fail the check");
        assert_eq!("error: db check failed: secondary index\n", err, "case {name}");
    }
}

#[test]
fn db_check_reports_secondary_index_for_matching_entry_appended_after_commit() {
    let mut files = new_files();
    append_users_catalog_with_one_row(&mut files);
    append_fixture_record(&mut files, &secondary_index_entry_record(2, "idx_users_age", 10, 1, 0));
    append_fixture_record(&mut files, &secondary_index_metadata_record(2, "idx_users_age", "users", 1, b'P'));
    append_fixture_record(&mut files, &secondary_index_entry_record(2, "idx_users_age", 10, 1, 0));
    assert_check_secondary_index_failure(&files);
}

#[test]
fn indexed_row_corruption_matrix_reports_secondary_index() {
    let age = |key: i64, tie: i64, pos: u64, name: &'static str| EmbeddedIndexEntry { build_id: 1, index_name: name, indexed_key: key, tie_break: tie, row_position: pos };
    let score = EmbeddedIndexEntry { build_id: 2, index_name: "idx_users_score", indexed_key: 100, tie_break: 1, row_position: 0 };
    let score_again = || EmbeddedIndexEntry { build_id: 2, index_name: "idx_users_score", indexed_key: 100, tie_break: 1, row_position: 0 };
    let cases: Vec<(&str, Vec<EmbeddedIndexEntry<'_>>)> = vec![
        ("missing_embedded_entry", vec![age(10, 1, 0, "idx_users_age")]),
        (
            "extra_embedded_entry",
            vec![
                age(10, 1, 0, "idx_users_age"),
                score,
                EmbeddedIndexEntry { build_id: 99, index_name: "idx_users_extra", indexed_key: 777, tie_break: 1, row_position: 0 },
            ],
        ),
        ("wrong_index", vec![age(10, 1, 0, "idx_users_age_typo"), score_again()]),
        ("wrong_key", vec![age(99, 1, 0, "idx_users_age"), score_again()]),
        ("wrong_tie_break", vec![age(10, 9, 0, "idx_users_age"), score_again()]),
        ("wrong_row_position", vec![age(10, 1, 9, "idx_users_age"), score_again()]),
    ];
    for (name, entries) in cases {
        let mut files = new_files();
        append_fixture_record(&mut files, &catalog_record("users", &[("id", b'I', true), ("age", b'I', false), ("score", b'I', false)]));
        append_fixture_record(&mut files, &secondary_index_metadata_record(1, "idx_users_age", "users", 1, b'P'));
        append_fixture_record(&mut files, &secondary_index_metadata_record(2, "idx_users_score", "users", 2, b'P'));
        append_fixture_record(&mut files, &indexed_row_record("users", &[(b'I', "1"), (b'I', "10"), (b'I', "100")], &entries));
        let (code, _, err) = check_output(&files);
        assert_eq!(1, code, "case {name} should fail the check");
        assert_eq!("error: db check failed: secondary index\n", err, "case {name}");
    }
}

#[test]
fn post_index_insert_persists_one_atomic_indexed_row_record_for_all_indexes() {
    let mut files = new_files();
    assert_exec(
        &mut files,
        "CREATE TABLE users (id INT PRIMARY KEY, age INT, score INT); CREATE INDEX idx_users_age ON users(age); CREATE INDEX idx_users_score ON users(score); INSERT INTO users VALUES (1, 10, 100);",
        0,
        "",
        "",
    );
    let records = read_fixture_records(&files);
    assert_eq!(1, count_record_kind(&records, b'C'));
    assert_eq!(2, count_record_kind(&records, b'X'));
    assert_eq!(1, count_record_kind(&records, b'I'));
    assert_eq!(0, count_record_kind(&records, b'R'), "post-index inserts must not append row-only R records");
    assert_eq!(0, count_record_kind(&records, b'E'), "post-index inserts must not append standalone E records");
    let indexed_row = records.iter().find(|record| sql_record_kind(record) == b'I').expect("post-index insert should append one indexed row record");
    assert_eq!(2, indexed_row_embedded_entry_count(indexed_row), "one I record must embed one entry for each committed index");
}

#[test]
fn interrupted_post_index_insert_with_no_indexed_row_record_can_be_retried() {
    let mut files = new_files();
    append_fixture_record(&mut files, &catalog_record("users", &[("id", b'I', true), ("age", b'I', false), ("score", b'I', false)]));
    append_fixture_record(&mut files, &secondary_index_metadata_record(1, "idx_users_age", "users", 1, b'P'));
    append_fixture_record(&mut files, &secondary_index_metadata_record(2, "idx_users_score", "users", 2, b'P'));
    assert_check_ok(&files);
    assert_exec(&mut files, "INSERT INTO users VALUES (1, 10, 100);", 0, "", "");
    assert_exec(&mut files, "SELECT * FROM users WHERE age = 10;", 0, "id|age|score\n1|10|100\n", "");
    let records = read_fixture_records(&files);
    assert_eq!(1, count_record_kind(&records, b'I'));
    assert_eq!(0, count_record_kind(&records, b'R'));
    assert_eq!(0, count_record_kind(&records, b'E'));
}

#[test]
fn create_index_success_is_silent_and_required_equality_example_uses_index_order() {
    let mut files = new_files();
    assert_exec(
        &mut files,
        "CREATE TABLE users (id INT PRIMARY KEY, age INT, name TEXT); INSERT INTO users VALUES (3, 20, 'cal'); INSERT INTO users VALUES (1, 10, 'ada'); INSERT INTO users VALUES (2, 20, 'bea');",
        0,
        "",
        "",
    );
    assert_exec(&mut files, "CREATE INDEX idx_users_age ON users(age);", 0, "", "");
    assert_exec(&mut files, "SELECT * FROM users WHERE age = 20;", 0, "id|age|name\n2|20|bea\n3|20|cal\n", "");
}

#[test]
fn between_range_scan_is_inclusive_and_ordered_by_secondary_key_then_primary_key() {
    let mut files = new_files();
    assert_exec(
        &mut files,
        "CREATE TABLE users (id INT PRIMARY KEY, age INT, name TEXT); INSERT INTO users VALUES (3, 20, 'cal'); INSERT INTO users VALUES (1, 10, 'ada'); INSERT INTO users VALUES (2, 20, 'bea'); CREATE INDEX idx_users_age ON users(age); SELECT * FROM users WHERE age BETWEEN 10 AND 20;",
        0,
        "id|age|name\n1|10|ada\n2|20|bea\n3|20|cal\n",
        "",
    );
}

#[test]
fn create_index_semantic_errors_match_contract_exactly() {
    let cases = [
        (
            "CREATE INDEX idx_users_age ON missing(age);",
            "error: SQL semantic error: table not found: missing\nhint: create the table before INSERT, SELECT, or CREATE INDEX.\n",
        ),
        (
            "CREATE TABLE users (id INT); CREATE INDEX idx_users_age ON users(age);",
            "error: SQL semantic error: column not found for index idx_users_age: age\nhint: create the index on an existing table column.\n",
        ),
        (
            "CREATE TABLE users (id INT, name TEXT); CREATE INDEX idx_users_name ON users(name);",
            "error: SQL semantic error: secondary index column must be INT: name\nhint: this SQL slice supports secondary indexes only on INT columns.\n",
        ),
        (
            "CREATE TABLE users (id INT, age INT); CREATE INDEX idx_users_age ON users(age); CREATE INDEX idx_users_age ON users(age);",
            "error: SQL semantic error: index already exists: idx_users_age\nhint: use a new index name for CREATE INDEX in this database.\n",
        ),
    ];
    for (sql, expected_stderr) in cases {
        let mut files = new_files();
        assert_exec(&mut files, sql, 2, "", expected_stderr);
    }
}
