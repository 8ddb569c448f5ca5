use persistent_db_core::check::{check_database, CheckError, SUCCESS_OUTPUT};
use persistent_db_core::sql::{execute, DatabaseFiles};
use persistent_db_core::storage::PageStore;

const PAGE_SIZE: usize = 4096;
const DATA_PAGE_HEADER_SIZE: usize = 16;
const RECORD_LENGTH_SIZE: usize = 4;
const MAX_RECORD_PAYLOAD_LEN: usize = PAGE_SIZE - DATA_PAGE_HEADER_SIZE - RECORD_LENGTH_SIZE;
const FIRST_RECORD_LENGTH_OFFSET: usize = PAGE_SIZE + DATA_PAGE_HEADER_SIZE;
const FIRST_RECORD_PAYLOAD_OFFSET: usize = FIRST_RECORD_LENGTH_OFFSET + 4;
const FIRST_SQL_KIND_OFFSET: usize = FIRST_RECORD_PAYLOAD_OFFSET + SQL_RECORD_PREFIX.len();
const SQL_RECORD_PREFIX: &[u8; 8] = b"PDBSQL1\0";
const WAL_MAGIC: &[u8; 8] = b"PDBWAL1\0";
const WAL_VERSION: u16 = 1;
const WAL_STATE_COMMITTED: u8 = 0x01;
const WAL_PAYLOAD_KIND_PAGE_APPEND: u8 = 0x01;
const WAL_HEADER_LEN: usize = 36;
const PATH: &str = "test.pdb";

fn new_files() -> DatabaseFiles {
    DatabaseFiles { data: None, wal: None }
}

fn assert_exec_ok(files: &mut DatabaseFiles, sql: &str) {
    let out = execute(files, sql).expect("exec should succeed");
    assert!(out.is_empty());
}

fn check_db(files: &DatabaseFiles) -> (i32, String, String) {
    match check_database(&String::from(PATH), files.data.as_deref(), files.wal.as_deref()) {
        Ok(()) => (0, String::from(SUCCESS_OUTPUT), String::new()),
        Err(error) => (1, String::new(), error.report()),
    }
}

fn assert_check_ok(output: (i32, String, String)) {
    assert_eq!(0, output.0, "valid db check should pass; stdout={:?}; stderr={:?}", output.1, output.2);
    assert_eq!("ok: db check passed\n", output.1);
    assert_eq!("", output.2);
}

fn assert_check_failed(output: (i32, String, String), expected_label: &str) {
    assert_eq!(1, output.0, "db check should fail with exit 1; stdout={:?}; stderr={:?}", output.1, output.2);
    assert_eq!("", output.1, "db check failure stdout must be empty");
    assert_eq!(format!("error: db check failed: {expected_label}\n"), output.2, "stderr should use exact check failure contract");
}

fn append_raw_record(files: &mut DatabaseFiles, payload: &[u8]) {
    let mut store = PageStore::open(files.data.take(), files.wal.take()).expect("fixture page store should open");
    store.append_record(payload).expect("fixture record should append");
    files.data = Some(store.file_bytes().clone());
    files.wal = store.wal_bytes().cloned();
}

fn committed_wal_frame(frame_id: u64, record_count_before: u64, payload: &[u8]) -> Vec<u8> {
    let mut frame = Vec::with_capacity(WAL_HEADER_LEN + payload.len());
    frame.extend_from_slice(WAL_MAGIC);
    frame.extend_from_slice(&WAL_VERSION.to_le_bytes());
    frame.extend_from_slice(&frame_id.to_le_bytes());
    frame.extend_from_slice(&record_count_before.to_le_bytes());
    frame.push(WAL_STATE_COMMITTED);
    frame.push(WAL_PAYLOAD_KIND_PAGE_APPEND);
    frame.extend_from_slice(&(payload.len() as u32).to_le_bytes());
    frame.extend_from_slice(&0u32.to_le_bytes());
    frame.extend_from_slice(payload);
    let checksum = checksum(&frame);
    frame[32..36].copy_from_slice(&checksum.to_le_bytes());
    frame
}

fn checksum(frame_with_zero_checksum: &[u8]) -> u32 {
    frame_with_zero_checksum
        .iter()
        .enumerate()
        .filter(|(index, _)| !(32..36).contains(index))
        .fold(0u32, |sum, (_, byte)| sum.wrapping_add(*byte as u32))
}

fn write_string_u16(record: &mut Vec<u8>, value: &str) {
    record.extend_from_slice(&(value.len() as u16).to_le_bytes());
    record.extend_from_slice(value.as_bytes());
}

fn catalog_record(table: &str, columns: &[(&str, u8, bool)]) -> Vec<u8> {
    let mut record = Vec::new();
    record.extend_from_slice(SQL_RECORD_PREFIX);
    record.push(b'C');
    write_string_u16(&mut record, table);
    record.extend_from_slice(&(columns.len() as u16).to_le_bytes());
    let mut primary_key = None;
    for (index, (name, column_type, is_primary_key)) in columns.iter().enumerate() {
        write_string_u16(&mut record, name);
        record.push(*column_type);
        if *is_primary_key {
            primary_key = Some(index as u16);
        }
    }
    if let Some(primary_key) = primary_key {
        record.push(b'P');
        record.extend_from_slice(&primary_key.to_le_bytes());
    }
    record
}

fn row_record(table: &str, values: &[(u8, &str)]) -> Vec<u8> {
    let mut record = Vec::new();
    record.extend_from_slice(SQL_RECORD_PREFIX);
    record.push(b'R');
    write_string_u16(&mut record, table);
    record.extend_from_slice(&(values.len() as u16).to_le_bytes());
    for (value_type, value) in values {
        record.push(*value_type);
        record.extend_from_slice(&(value.len() as u32).to_le_bytes());
        record.extend_from_slice(value.as_bytes());
    }
    record
}

#[test]
fn check_valid_database_passes_with_exact_output() {
    let mut files = new_files();
    assert_exec_ok(&mut files, "CREATE TABLE users (id INT PRIMARY KEY, name TEXT); INSERT INTO users VALUES (1, 'ada');");
    assert_check_ok(check_db(&files));
}

#[test]
fn check_valid_chained_retained_wal_frames_pass() {
    let mut files = new_files();
    assert_exec_ok(&mut files, "CREATE TABLE users (id INT, name TEXT);");
    let first_row = row_record("users", &[(b'I', "1"), (b'T', "ada")]);
    let second_row = row_record("users", &[(b'I', "2"), (b'T', "bea")]);
    let durable_record_count = 1u64;
    files.wal = Some([committed_wal_frame(1, durable_record_count, &first_row), committed_wal_frame(2, durable_record_count + 1, &second_row)].concat());
    assert_check_ok(check_db(&files));
}

#[test]
fn check_storage_readability_corruption_fails_with_stable_prefix() {
    let mut files = new_files();
    assert_exec_ok(&mut files, "CREATE TABLE users (id INT, name TEXT);");
    let data = files.data.as_mut().expect("store file should exist");
    data[FIRST_RECORD_LENGTH_OFFSET..FIRST_RECORD_LENGTH_OFFSET + 4].copy_from_slice(&(PAGE_SIZE as u32).to_le_bytes());
    assert_check_failed(check_db(&files), "storage record readability");
}

#[test]
fn check_decode_impossible_sql_bytes_fail_as_storage_readability() {
    let mut files = new_files();
    assert_exec_ok(&mut files, "CREATE TABLE users (id INT, name TEXT);");
    let data = files.data.as_mut().expect("store file should exist");
    data[FIRST_SQL_KIND_OFFSET] = b'X';
    assert_check_failed(check_db(&files), "storage record readability");
}

#[test]
fn check_catalog_record_invariant_corruption_fails_with_label() {
    let mut files = new_files();
    append_raw_record(&mut files, &row_record("ghosts", &[(b'I', "1")]));
    assert_check_failed(check_db(&files), "catalog/record invariant");
}

#[test]
fn check_primary_index_duplicate_key_corruption_fails_with_label() {
    let mut files = new_files();
    append_raw_record(&mut files, &catalog_record("users", &[("id", b'I', true), ("name", b'T', false)]));
    append_raw_record(&mut files, &row_record("users", &[(b'I', "1"), (b'T', "ada")]));
    append_raw_record(&mut files, &row_record("users", &[(b'I', "1"), (b'T', "bea")]));
    assert_check_failed(check_db(&files), "primary index");
}

#[test]
fn check_wal_ahead_of_store_corruption_fails_with_label() {
    let mut files = new_files();
    assert_exec_ok(&mut files, "CREATE TABLE users (id INT, name TEXT);");
    let ghost_row = row_record("users", &[(b'I', "9"), (b'T', "ghost")]);
    let durable_record_count = 1u64;
    files.wal = Some(committed_wal_frame(1, durable_record_count + 1, &ghost_row));
    assert_check_failed(check_db(&files), "wal replay consistency");
}

#[test]
fn check_wal_count_valid_unreplayable_payload_fails_with_label() {
    let mut files = new_files();
    assert_exec_ok(&mut files, "CREATE TABLE users (id INT, name TEXT);");
    let unreplayable_payload = vec![b'x'; MAX_RECORD_PAYLOAD_LEN + 1];
    files.wal = Some(committed_wal_frame(1, 1, &unreplayable_payload));
    assert_check_failed(check_db(&files), "wal replay consistency");
}

#[test]
fn check_missing_file_fails_as_user_open_read_error() {
    let files = new_files();
    let result = check_database(&String::from(PATH), files.data.as_deref(), files.wal.as_deref());
    assert_eq!(Err(CheckError::OpenRead { path: String::from(PATH) }), result);
    assert_eq!("error: could not open or read database path: test.pdb\n", result.unwrap_err().report());
}
