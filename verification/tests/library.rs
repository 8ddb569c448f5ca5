use persistent_db_core::record::{decode_record, encode_catalog_record, encode_row_record, Column, ColumnType, LogicalRecord, Value};
use persistent_db_core::replay::CheckLabel;
use persistent_db_core::schema::Database;
use persistent_db_core::sql::{
    create_section14_fixture_for_bench, create_section14_wal_recovery_fixture_for_bench, execute, execute_selects_for_bench,
    plan_selects_for_bench, prepare_select_batches_for_bench, run_select_batch_for_bench, validate_records_for_check,
    DatabaseFiles, QueryPath, SqlError,
};
use persistent_db_core::storage::PageStore;

fn new_files() -> DatabaseFiles {
    DatabaseFiles { data: None, wal: None }
}

fn text(out: Vec<u8>) -> String {
    String::from_utf8(out).expect("output should be UTF-8")
}

fn records_of(files: &DatabaseFiles) -> Vec<Vec<u8>> {
    PageStore::open(files.data.clone(), files.wal.clone()).expect("store should open").read_records().expect("records should read")
}

#[test]
fn encoded_row_record_decodes_to_the_same_row() {
    let payload = encode_row_record(b"users", &[Value::Int(-7), Value::Text(b"ada".to_vec())]);
    match decode_record(&payload) {
        Some(LogicalRecord::Row { table, values }) => {
            assert_eq!(b"users".to_vec(), table);
            assert_eq!(2, values.len());
            assert!(matches!(values[0], Value::Int(-7)));
            assert!(matches!(&values[1], Value::Text(t) if t.as_slice() == b"ada"));
        }
        other => panic!("unexpected decode result: {other:?}"),
    }
}

#[test]
fn encoded_catalog_record_keeps_its_primary_key_column() {
    let columns = vec![
        Column { name: b"id".to_vec(), column_type: ColumnType::Int, is_primary_key: true },
        Column { name: b"name".to_vec(), column_type: ColumnType::Text, is_primary_key: false },
    ];
    let payload = encode_catalog_record(b"users", &columns);
    match decode_record(&payload) {
        Some(LogicalRecord::Catalog { table, columns }) => {
            assert_eq!(b"users".to_vec(), table);
            assert_eq!(2, columns.len());
            assert!(columns[0].is_primary_key);
            assert!(!columns[1].is_primary_key);
        }
        other => panic!("unexpected decode result: {other:?}"),
    }
}

#[test]
fn bytes_without_the_record_prefix_do_not_decode() {
    assert!(decode_record(b"legacy").is_none());
    assert!(decode_record(b"").is_none());
}

#[test]
fn records_written_by_execute_replay_to_a_consistent_database() {
    let mut files = new_files();
    execute(
        &mut files,
        "CREATE TABLE users (id INT PRIMARY KEY, age INT, name TEXT); INSERT INTO users VALUES (1, 30, 'ada'); CREATE INDEX idx_age ON users(age); INSERT INTO users VALUES (2, 20, 'bea'); UPDATE users SET name = 'cy' WHERE id = 1; DELETE FROM users WHERE id = 2;",
    )
    .expect("statements should run");
    let records = records_of(&files);
    assert_eq!(Ok(()), validate_records_for_check(records.clone()));
    let database = Database::from_records(records).expect("records should replay");
    assert_eq!(1, database.tables.len());
    assert_eq!("id|age|name\n1|30|cy\n", text(execute(&mut files, "SELECT * FROM users;").expect("select should run")));
}

#[test]
fn check_labels_have_their_names() {
    assert_eq!("storage record readability", CheckLabel::StorageRecordReadability.text());
    assert_eq!("catalog/record invariant", CheckLabel::CatalogRecordInvariant.text());
    assert_eq!("primary index", CheckLabel::PrimaryIndex.text());
    assert_eq!("secondary index", CheckLabel::SecondaryIndex.text());
}

#[test]
fn record_that_cannot_be_decoded_breaks_readability() {
    assert_eq!(Err("storage record readability"), validate_records_for_check(vec![b"legacy".to_vec()]));
    assert_eq!(Ok(()), validate_records_for_check(Vec::new()));
}

#[test]
fn error_reports_carry_their_exit_codes() {
    assert_eq!(2, SqlError::Unsupported(b"x".to_vec()).report().1);
    assert_eq!(2, SqlError::Malformed(b"x".to_vec()).report().1);
    assert_eq!(1, SqlError::InvalidStorageRecord.report().1);
    let (stderr, code) = SqlError::Unsupported(b"SELECT id FROM users;".to_vec()).report();
    assert_eq!(2, code);
    assert_eq!(
        "error: unsupported SQL statement: SELECT id FROM users;\nhint: supported SQL subset: CREATE TABLE, INSERT INTO ... VALUES, SELECT * FROM ..., SELECT * FROM ... WHERE <primary_key> = <int>;\n",
        text(stderr)
    );
}

#[test]
fn update_and_delete_change_rows_by_primary_key() {
    let mut files = new_files();
    let out = execute(
        &mut files,
        "CREATE TABLE t (id INT PRIMARY KEY, v TEXT); INSERT INTO t VALUES (1, 'a'); INSERT INTO t VALUES (2, 'b'); UPDATE t SET v = 'z' WHERE id = 2; DELETE FROM t WHERE id = 1; SELECT * FROM t;",
    )
    .expect("statements should run");
    assert_eq!("id|v\n2|z\n", text(out));
}

#[test]
fn duplicate_primary_key_insert_is_refused_and_appends_nothing() {
    let mut files = new_files();
    execute(&mut files, "CREATE TABLE t (id INT PRIMARY KEY); INSERT INTO t VALUES (1);").expect("setup should run");
    let before = records_of(&files).len();
    let error = execute(&mut files, "INSERT INTO t VALUES (1);").expect_err("duplicate key must be refused");
    assert!(matches!(error, SqlError::Semantic { .. }));
    assert_eq!(before, records_of(&files).len());
}

#[test]
fn plan_and_run_selects_for_bench() {
    let mut files = new_files();
    execute(
        &mut files,
        "CREATE TABLE t (id INT PRIMARY KEY, g INT); INSERT INTO t VALUES (1, 5); INSERT INTO t VALUES (2, 5); CREATE INDEX idx_g ON t(g);",
    )
    .expect("setup should run");
    let texts = vec![String::from("SELECT * FROM t WHERE id = 1;"), String::from("SELECT * FROM t;")];
    let paths = plan_selects_for_bench(&mut files, &texts).expect("paths should plan");
    assert_eq!(
        vec![
            QueryPath::PrimaryIndex { table: b"t".to_vec(), column: b"id".to_vec() },
            QueryPath::FullTableScan { table: b"t".to_vec() },
        ],
        paths
    );
    let outputs = execute_selects_for_bench(&mut files, &[String::from("SELECT * FROM t WHERE g = 5;")]).expect("selects should run");
    assert_eq!(vec![b"id|g\n1|5\n2|5\n".to_vec()], outputs);
    let two = vec![String::from("SELECT * FROM t;"), String::from("SELECT * FROM t;")];
    let error = execute_selects_for_bench(&mut files, &[two.concat()]).expect_err("two statements in one text are refused");
    assert!(matches!(error, SqlError::Malformed(_)));
    let (database, batches) = prepare_select_batches_for_bench(&mut files, &[texts.clone(), texts]).expect("batches should parse");
    assert_eq!(2, batches.len());
    let outs = run_select_batch_for_bench(&database, &batches[1]).expect("batch should run");
    assert_eq!(b"id|g\n1|5\n".to_vec(), outs[0]);
}

#[test]
fn non_select_statement_is_not_a_bench_query() {
    let mut files = new_files();
    execute(&mut files, "CREATE TABLE t (id INT);").expect("setup should run");
    let error = execute_selects_for_bench(&mut files, &[String::from("INSERT INTO t VALUES (1);")]).expect_err("inserts are not queries");
    assert_eq!(SqlError::Unsupported(Vec::new()), error);
}

#[test]
fn section14_fixture_holds_the_rows_with_their_index() {
    let mut files = new_files();
    let rows = vec![(1i64, 7i64, String::from("aaaaaaaa")), (2, 3, String::from("bbbbbbbb")), (3, 7, String::from("cccccccc"))];
    create_section14_fixture_for_bench(&mut files, &rows, "idx_section14_bench_group_key").expect("fixture should be written");
    assert_eq!(5, records_of(&files).len());
    let out = execute(&mut files, "SELECT * FROM bench_items WHERE group_key = 7;").expect("select should run");
    assert_eq!("id|group_key|payload\n1|7|aaaaaaaa\n3|7|cccccccc\n", text(out));
}

#[test]
fn section14_recovery_fixture_rows_come_back_from_the_log() {
    let mut files = new_files();
    let rows = vec![(1i64, 4i64, String::from("pppppppp")), (2, 5, String::from("qqqqqqqq"))];
    create_section14_wal_recovery_fixture_for_bench(&mut files, &rows, "idx_section14_bench_group_key").expect("fixture should be written");
    let store_only = PageStore::open(files.data.clone(), None).expect("store should open").read_records().expect("records should read");
    assert_eq!(2, store_only.len());
    let out = execute(&mut files, "SELECT * FROM bench_items WHERE id = 2;").expect("select should run");
    assert_eq!("id|group_key|payload\n2|5|qqqqqqqq\n", text(out));
    assert_eq!(4, records_of(&files).len());
}

#[test]
fn recovery_fixture_reopens_to_the_direct_fixture_records() {
    let rows = vec![(1i64, 4i64, String::from("pppppppp")), (2, 5, String::from("qqqqqqqq")), (3, 4, String::from("rr"))];
    let mut direct = new_files();
    create_section14_fixture_for_bench(&mut direct, &rows, "idx_section14_bench_group_key").expect("fixture should be written");
    let mut logged = new_files();
    create_section14_wal_recovery_fixture_for_bench(&mut logged, &rows, "idx_section14_bench_group_key").expect("fixture should be written");
    assert_ne!(direct.data, logged.data);
    assert_eq!(records_of(&direct), records_of(&logged));
    assert_eq!(5, records_of(&logged).len());
}

#[test]
fn bench_query_prints_what_execute_prints() {
    let mut files = new_files();
    execute(&mut files, "CREATE TABLE users (id INT PRIMARY KEY, age INT); INSERT INTO users VALUES (2, 7); INSERT INTO users VALUES (1, 7); CREATE INDEX idx_age ON users(age);")
        .expect("setup should succeed");
    let query = String::from("SELECT * FROM users WHERE age = 7;");
    let bench = execute_selects_for_bench(&mut files, &[query.clone()]).expect("bench query should run");
    let direct = execute(&mut files, &query).expect("query should run");
    assert_eq!(vec![direct], bench);
}
