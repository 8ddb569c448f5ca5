use persistent_db_core::sql::{execute, DatabaseFiles};
use persistent_db_core::storage::PageStore;

const SQL_RECORD_PREFIX: &[u8; 8] = b"PDBSQL1\0";
const INVALID_SQL_STORAGE_STDERR: &str = "error: invalid SQL storage record: unknown record tag\nhint: run against a database file created by this SQL contract or restore from a valid backup.\n";

fn new_files() -> DatabaseFiles {
    DatabaseFiles { data: None, wal: None }
}

fn run(files: &mut DatabaseFiles, sql: &str) -> (i32, String, String) {
    match execute(files, sql) {
        Ok(out) => (0, String::from_utf8(out).expect("stdout should be UTF-8"), String::new()),
        Err(error) => {
            let (text, code) = error.report();
            (code, String::new(), String::from_utf8(text).expect("stderr should be UTF-8"))
        }
    }
}

fn assert_exec(files: &mut DatabaseFiles, sql: &str, code: i32, expected_stdout: &str, expected_stderr: &str) {
    let (actual_code, out, err) = run(files, sql);
    assert_eq!(code, actual_code, "unexpected exit; stdout={:?}; stderr={:?}", out, err);
    assert_eq!(expected_stdout, out);
    assert_eq!(expected_stderr, err);
}

fn append_fixture_record(files: &mut DatabaseFiles, payload: &[u8]) {
    let mut store = PageStore::open(files.data.take(), files.wal.take()).expect("fixture database should open");
    store.append_record(payload).expect("fixture record should append");
    files.data = Some(store.file_bytes().clone());
    files.wal = store.wal_bytes().cloned();
}

fn catalog_record(table: &str, columns: &[(&str, u8)]) -> Vec<u8> {
    let mut record = Vec::new();
    record.extend_from_slice(SQL_RECORD_PREFIX);
    record.push(b'C');
    write_string_u16(&mut record, table);
    record.extend_from_slice(&(columns.len() as u16).to_le_bytes());
    for (name, column_type) in columns {
        write_string_u16(&mut record, name);
        record.push(*column_type);
    }
    record
}

fn row_record(table: &str, values: &[(u8, &str)]) -> Vec<u8> {
    let mut record = Vec::new();
    record.extend_from_slice(SQL_RECORD_PREFIX);
    record.push(b'R');
    write_string_u16(&mut record, table);
    record.extend_from_slice(&(values.len() as u16).to_le_bytes());
    for (value_type, value) in values {
        record.push(*value_type);
        record.extend_from_slice(&(value.len() as u32).to_le_bytes());
        record.extend_from_slice(value.as_bytes());
    }
    record
}

fn write_string_u16(record: &mut Vec<u8>, value: &str) {
    record.extend_from_slice(&(value.len() as u16).to_le_bytes());
    record.extend_from_slice(value.as_bytes());
}

#[test]
fn happy_path_creates_inserts_and_selects_rows_in_insert_order() {
    let mut files = new_files();
    assert_exec(
        &mut files,
        "CREATE TABLE users (id INT, name TEXT); INSERT INTO users VALUES (1, 'ada'); INSERT INTO users VALUES (2, 'bea'); SELECT * FROM users;",
        0,
        "id|name\n1|ada\n2|bea\n",
        "",
    );
}

#[test]
fn signed_decimal_int_literals_accept_noncanonical_zero_spelling() {
    let mut files = new_files();
    assert_exec(
        &mut files,
        "CREATE TABLE nums (n INT); INSERT INTO nums VALUES (-0); SELECT * FROM nums;",
        0,
        "n\n0\n",
        "",
    );
}

#[test]
fn restart_persists_catalog_and_rows() {
    let mut files = new_files();
    assert_exec(
        &mut files,
        "CREATE TABLE users (id INT, name TEXT); INSERT INTO users VALUES (1, 'ada');",
        0,
        "",
        "",
    );
    assert_exec(&mut files, "SELECT * FROM users;", 0, "id|name\n1|ada\n", "");
}

#[test]
fn mid_command_failure_keeps_prior_successes_and_skips_later_statements() {
    let mut files = new_files();
    assert_exec(
        &mut files,
        "CREATE TABLE users (id INT, name TEXT); INSERT INTO users VALUES (1, 'ada'); INSERT INTO users VALUES ('bad', 'type'); INSERT INTO users VALUES (2, 'bea');",
        2,
        "",
        "error: SQL semantic error: type mismatch for column id: expected INT, got TEXT\nhint: INSERT values must match the declared column types.\n",
    );
    assert_exec(&mut files, "SELECT * FROM users;", 0, "id|name\n1|ada\n", "");
}

#[test]
fn multiple_selects_repeat_headers_without_separators() {
    let mut files = new_files();
    assert_exec(
        &mut files,
        "CREATE TABLE users (id INT, name TEXT); SELECT * FROM users; INSERT INTO users VALUES (1, 'ada'); SELECT * FROM users;",
        0,
        "id|name\nid|name\n1|ada\n",
        "",
    );
}

#[test]
fn empty_table_select_outputs_header_only() {
    let mut files = new_files();
    assert_exec(&mut files, "CREATE TABLE users (id INT, name TEXT); SELECT * FROM users;", 0, "id|name\n", "");
}

#[test]
fn failed_command_suppresses_partial_select_stdout() {
    let mut files = new_files();
    assert_exec(
        &mut files,
        "CREATE TABLE users (id INT); INSERT INTO users VALUES (1); SELECT * FROM users; INSERT INTO users VALUES ('bad');",
        2,
        "",
        "error: SQL semantic error: type mismatch for column id: expected INT, got TEXT\nhint: INSERT values must match the declared column types.\n",
    );
}

#[test]
fn identifiers_compare_case_insensitively_but_preserve_catalog_spelling() {
    let mut files = new_files();
    assert_exec(
        &mut files,
        "CREATE TABLE Users (ID INT, Name TEXT); INSERT INTO users VALUES (1, 'ada'); SELECT * FROM users;",
        0,
        "ID|Name\n1|ada\n",
        "",
    );
}

#[test]
fn primary_key_where_on_missing_table_reports_table_not_found() {
    let mut files = new_files();
    assert_exec(
        &mut files,
        "SELECT * FROM users WHERE id = 1;",
        2,
        "",
        "error: SQL semantic error: table not found: users\nhint: create the table before INSERT or SELECT.\n",
    );
}

#[test]
fn malformed_sql_reports_exact_statement() {
    let mut files = new_files();
    assert_exec(
        &mut files,
        "CREATE TABLE users id INT);",
        2,
        "",
        "error: malformed SQL statement: CREATE TABLE users id INT);\nhint: terminate each statement with ';' and use the documented SQL subset.\n",
    );
}

#[test]
fn malformed_select_shape_reports_exact_statement() {
    let mut files = new_files();
    assert_exec(
        &mut files,
        "SELECT * users;",
        2,
        "",
        "error: malformed SQL statement: SELECT * users;\nhint: terminate each statement with ';' and use the documented SQL subset.\n",
    );
}

#[test]
fn malformed_select_trailing_token_reports_exact_statement() {
    let mut files = new_files();
    assert_exec(
        &mut files,
        "SELECT * FROM users extra;",
        2,
        "",
        "error: malformed SQL statement: SELECT * FROM users extra;\nhint: terminate each statement with ';' and use the documented SQL subset.\n",
    );
}

#[test]
fn semantic_failure_matrix_reports_exact_errors() {
    let cases = [
        (
            "CREATE TABLE users (id INT); CREATE TABLE users (name TEXT);",
            "error: SQL semantic error: table already exists: users\nhint: use a new table name for CREATE TABLE in this database.\n",
        ),
        (
            "CREATE TABLE users (id INT); CREATE TABLE Users (name TEXT);",
            "error: SQL semantic error: table already exists: Users\nhint: use a new table name for CREATE TABLE in this database.\n",
        ),
        (
            "INSERT INTO missing VALUES (1);",
            "error: SQL semantic error: table not found: missing\nhint: create the table before INSERT or SELECT.\n",
        ),
        (
            "SELECT * FROM missing;",
            "error: SQL semantic error: table not found: missing\nhint: create the table before INSERT or SELECT.\n",
        ),
        (
            "CREATE TABLE users (id INT, id TEXT);",
            "error: SQL semantic error: duplicate column: id\nhint: column names in a table must be unique.\n",
        ),
        (
            "CREATE TABLE users (id INT, ID TEXT);",
            "error: SQL semantic error: duplicate column: ID\nhint: column names in a table must be unique.\n",
        ),
        (
            "CREATE TABLE users (id INT, name TEXT); INSERT INTO users VALUES (1);",
            "error: SQL semantic error: column count mismatch for table users: expected 2 values, got 1\nhint: INSERT values must match the table schema exactly.\n",
        ),
        (
            "CREATE TABLE users (id INT); INSERT INTO users VALUES ('ada');",
            "error: SQL semantic error: type mismatch for column id: expected INT, got TEXT\nhint: INSERT values must match the declared column types.\n",
        ),
    ];
    for (sql, expected_stderr) in cases {
        let mut files = new_files();
        assert_exec(&mut files, sql, 2, "", expected_stderr);
    }
}

#[test]
fn unknown_sql_storage_record_fails_deterministically() {
    let mut files = new_files();
    append_fixture_record(&mut files, b"legacy");
    assert_exec(&mut files, "SELECT * FROM users;", 1, "", INVALID_SQL_STORAGE_STDERR);
}

#[test]
fn sql_prefixed_duplicate_column_catalog_record_fails_deterministically() {
    let mut files = new_files();
    append_fixture_record(&mut files, &catalog_record("users", &[("id", b'I'), ("ID", b'T')]));
    assert_exec(&mut files, "SELECT * FROM users;", 1, "", INVALID_SQL_STORAGE_STDERR);
}

#[test]
fn sql_prefixed_output_breaking_text_row_record_fails_deterministically() {
    let mut files = new_files();
    append_fixture_record(&mut files, &catalog_record("users", &[("name", b'T')]));
    append_fixture_record(&mut files, &row_record("users", &[(b'T', "a|b\n")]));
    assert_exec(&mut files, "SELECT * FROM users;", 1, "", INVALID_SQL_STORAGE_STDERR);
}

#[test]
fn sql_prefixed_noncanonical_int_row_record_fails_deterministically() {
    let mut files = new_files();
    append_fixture_record(&mut files, &catalog_record("nums", &[("id", b'I')]));
    append_fixture_record(&mut files, &row_record("nums", &[(b'I', "01")]));
    assert_exec(&mut files, "SELECT * FROM nums;", 1, "", INVALID_SQL_STORAGE_STDERR);
}

#[test]
fn empty_store_file_counts_as_no_file() {
    let mut files = DatabaseFiles { data: Some(Vec::new()), wal: None };
    assert_exec(&mut files, "CREATE TABLE t (a INT); SELECT * FROM t;", 0, "a\n", "");
    assert!(files.data.as_ref().map(|d| !d.is_empty()).unwrap_or(false));
}

#[test]
fn storage_error_on_truncated_file_is_reported_with_exit_one() {
    let mut files = DatabaseFiles { data: Some(vec![1, 2, 3]), wal: None };
    assert_exec(
        &mut files,
        "SELECT * FROM t;",
        1,
        "",
        "error: storage error: TruncatedFile\nhint: database file must use the documented V1 page format.\n",
    );
    assert_eq!(Some(vec![1u8, 2, 3]), files.data);
}

fn assert_rejected_without_stdout(files: &mut DatabaseFiles, sql: &str) {
    let (code, out, err) = run(files, sql);
    assert_eq!(2, code, "unexpected exit; stdout={:?}; stderr={:?}", out, err);
    assert_eq!("", out);
    assert!(err.starts_with("error: "), "stderr should contain a deterministic user-facing error, got {:?}", err);
}

#[test]
fn unsupported_sql_reports_exact_statement() {
    let mut files = new_files();
    assert_exec(
        &mut files,
        "SELECT id FROM users;",
        2,
        "",
        "error: unsupported SQL statement: SELECT id FROM users;\nhint: supported SQL subset: CREATE TABLE, INSERT INTO ... VALUES, SELECT * FROM ..., SELECT * FROM ... WHERE <primary_key> = <int>;\n",
    );
}

#[test]
fn primary_key_exact_lookup_outputs_matching_row_after_reopen() {
    let mut files = new_files();
    assert_exec(
        &mut files,
        "CREATE TABLE users (id INT PRIMARY KEY, name TEXT); INSERT INTO users VALUES (2, 'bea'); INSERT INTO users VALUES (1, 'ada'); INSERT INTO users VALUES (3, 'cal');",
        0,
        "",
        "",
    );
    assert_exec(&mut files, "SELECT * FROM users WHERE id = 2;", 0, "id|name\n2|bea\n", "");
}

#[test]
fn primary_key_select_all_scans_in_key_order_not_insert_order() {
    let mut files = new_files();
    assert_exec(
        &mut files,
        "CREATE TABLE users (id INT PRIMARY KEY, name TEXT); INSERT INTO users VALUES (2, 'bea'); INSERT INTO users VALUES (1, 'ada'); INSERT INTO users VALUES (3, 'cal'); SELECT * FROM users;",
        0,
        "id|name\n1|ada\n2|bea\n3|cal\n",
        "",
    );
}

#[test]
fn primary_key_missing_lookup_outputs_header_only() {
    let mut files = new_files();
    assert_exec(
        &mut files,
        "CREATE TABLE users (id INT PRIMARY KEY, name TEXT); INSERT INTO users VALUES (2, 'bea'); SELECT * FROM users WHERE id = 9;",
        0,
        "id|name\n",
        "",
    );
}

#[test]
fn primary_key_duplicate_insert_fails_before_appending_row() {
    let mut files = new_files();
    assert_exec(
        &mut files,
        "CREATE TABLE users (id INT PRIMARY KEY, name TEXT); INSERT INTO users VALUES (2, 'bea'); INSERT INTO users VALUES (2, 'dupe');",
        2,
        "",
        "error: SQL semantic error: duplicate primary key for table users: 2\nhint: primary key values must be unique.\n",
    );
    assert_exec(&mut files, "SELECT * FROM users;", 0, "id|name\n2|bea\n", "");
}

#[test]
fn primary_key_empty_table_scan_outputs_header_only() {
    let mut files = new_files();
    assert_exec(
        &mut files,
        "CREATE TABLE empty_users (id INT PRIMARY KEY, name TEXT); SELECT * FROM empty_users;",
        0,
        "id|name\n",
        "",
    );
}

#[test]
fn primary_key_non_pk_table_preserves_insert_order() {
    let mut files = new_files();
    assert_exec(
        &mut files,
        "CREATE TABLE users (id INT, name TEXT); INSERT INTO users VALUES (2, 'bea'); INSERT INTO users VALUES (1, 'ada'); SELECT * FROM users;",
        0,
        "id|name\n2|bea\n1|ada\n",
        "",
    );
}

#[test]
fn primary_key_rejects_text_primary_key_declaration() {
    let mut files = new_files();
    assert_exec(
        &mut files,
        "CREATE TABLE users (id TEXT PRIMARY KEY, name TEXT);",
        2,
        "",
        "error: SQL semantic error: primary key column must be INT: id\nhint: this SQL slice supports one INT PRIMARY KEY column per table.\n",
    );
}

fn two_users() -> DatabaseFiles {
    let mut files = new_files();
    assert_exec(
        &mut files,
        "CREATE TABLE users (id INT PRIMARY KEY, name TEXT); INSERT INTO users VALUES (1, 'ada'); INSERT INTO users VALUES (2, 'bea');",
        0,
        "",
        "",
    );
    files
}

#[test]
fn primary_key_rejects_non_primary_key_where_without_full_scan() {
    let mut files = two_users();
    assert_rejected_without_stdout(&mut files, "SELECT * FROM users WHERE name = 'ada';");
}

#[test]
fn primary_key_rejects_range_predicate_without_full_scan() {
    let mut files = two_users();
    assert_rejected_without_stdout(&mut files, "SELECT * FROM users WHERE id > 1;");
}

#[test]
fn primary_key_rejects_order_by_without_full_scan() {
    let mut files = two_users();
    assert_rejected_without_stdout(&mut files, "SELECT * FROM users ORDER BY id;");
}
