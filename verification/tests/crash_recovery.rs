use persistent_db_core::sql::{execute, DatabaseFiles};

const SQL_RECORD_PREFIX: &[u8; 8] = b"PDBSQL1\0";
const WAL_MAGIC: &[u8; 8] = b"PDBWAL1\0";
const WAL_VERSION: u16 = 1;
const WAL_STATE_COMMITTED: u8 = 0x01;
const WAL_STATE_ROLLED_BACK: u8 = 0x02;
const WAL_PAYLOAD_KIND_PAGE_APPEND: u8 = 0x01;
const WAL_HEADER_LEN: usize = 36;

fn select_items(files: &mut DatabaseFiles) -> String {
    select_from(files, "SELECT * FROM items;")
}

fn select_from(files: &mut DatabaseFiles, sql: &str) -> String {
    match execute(files, sql) {
        Ok(out) => String::from_utf8(out).expect("stdout should be UTF-8"),
        Err(error) => {
            let (text, code) = error.report();
            panic!("select failed with exit {}: {}", code, String::from_utf8_lossy(&text));
        }
    }
}

fn seeded() -> DatabaseFiles {
    let mut files = DatabaseFiles { data: None, wal: None };
    let out = execute(
        &mut files,
        "CREATE TABLE items (id INT PRIMARY KEY, name TEXT); INSERT INTO items VALUES (1, 'seed');",
    )
    .expect("seed should succeed");
    assert!(out.is_empty());
    files
}

fn write_string_u16(record: &mut Vec<u8>, value: &str) {
    record.extend_from_slice(&(value.len() as u16).to_le_bytes());
    record.extend_from_slice(value.as_bytes());
}

fn row_payload(id: u64, name: &str) -> Vec<u8> {
    row_in("items", id, name)
}

fn row_in(table: &str, id: u64, name: &str) -> Vec<u8> {
    let id_text = id.to_string();
    let mut record = Vec::new();
    record.extend_from_slice(SQL_RECORD_PREFIX);
    record.push(b'R');
    write_string_u16(&mut record, table);
    record.extend_from_slice(&2u16.to_le_bytes());
    for (value_type, value) in [(b'I', id_text.as_str()), (b'T', name)] {
        record.push(value_type);
        record.extend_from_slice(&(value.len() as u32).to_le_bytes());
        record.extend_from_slice(value.as_bytes());
    }
    record
}

fn checksum(frame_with_zero_checksum: &[u8]) -> u32 {
    frame_with_zero_checksum
        .iter()
        .enumerate()
        .filter(|(index, _)| !(32..36).contains(index))
        .fold(0u32, |sum, (_, byte)| sum.wrapping_add(*byte as u32))
}

fn wal_frame(frame_id: u64, record_count_before: u64, state: u8, payload: &[u8]) -> Vec<u8> {
    let mut frame = Vec::with_capacity(WAL_HEADER_LEN + payload.len());
    frame.extend_from_slice(WAL_MAGIC);
    frame.extend_from_slice(&WAL_VERSION.to_le_bytes());
    frame.extend_from_slice(&frame_id.to_le_bytes());
    frame.extend_from_slice(&record_count_before.to_le_bytes());
    frame.push(state);
    frame.push(WAL_PAYLOAD_KIND_PAGE_APPEND);
    frame.extend_from_slice(&(payload.len() as u32).to_le_bytes());
    frame.extend_from_slice(&0u32.to_le_bytes());
    frame.extend_from_slice(payload);
    let sum = checksum(&frame);
    frame[32..36].copy_from_slice(&sum.to_le_bytes());
    frame
}

#[test]
fn reopen_without_log_shows_only_the_seed_and_leaves_the_file_alone() {
    let mut files = seeded();
    files.wal = None;
    let before = files.data.clone();
    assert_eq!("id|name\n1|seed\n", select_items(&mut files));
    assert!(files.wal.as_ref().map_or(true, |w| w.is_empty()));
    assert_eq!(before, files.data);
}

#[test]
fn partial_log_frame_is_ignored_and_cut_away() {
    let mut files = seeded();
    let mut partial = wal_frame(1, 2, WAL_STATE_COMMITTED, &row_payload(2, "partial_wal"));
    partial.truncate(WAL_HEADER_LEN + 4);
    files.wal = Some(partial);
    assert_eq!("id|name\n1|seed\n", select_items(&mut files));
    assert_eq!(Some(0), files.wal.as_ref().map(|w| w.len()));
}

#[test]
fn log_frame_without_commit_marker_is_not_visible() {
    let mut files = seeded();
    files.wal = Some(wal_frame(1, 2, WAL_STATE_ROLLED_BACK, &row_payload(2, "uncommitted")));
    assert_eq!("id|name\n1|seed\n", select_items(&mut files));
}

#[test]
fn committed_log_frame_is_applied_once_across_reopens() {
    let mut files = seeded();
    files.wal = Some(wal_frame(1, 2, WAL_STATE_COMMITTED, &row_payload(2, "committed_wal")));
    assert_eq!("id|name\n1|seed\n2|committed_wal\n", select_items(&mut files));
    assert_eq!("id|name\n1|seed\n2|committed_wal\n", select_items(&mut files));
}

#[test]
fn two_committed_log_frames_are_each_applied_once() {
    let mut files = seeded();
    let mut wal = wal_frame(1, 2, WAL_STATE_COMMITTED, &row_payload(2, "recover_a"));
    wal.extend_from_slice(&wal_frame(2, 3, WAL_STATE_COMMITTED, &row_payload(3, "recover_b")));
    files.wal = Some(wal);
    let expected = "id|name\n1|seed\n2|recover_a\n3|recover_b\n";
    assert_eq!(expected, select_items(&mut files));
    assert_eq!(expected, select_items(&mut files));
}

#[test]
fn corrupt_tail_after_committed_frame_keeps_the_committed_prefix() {
    let mut files = seeded();
    let committed = wal_frame(1, 2, WAL_STATE_COMMITTED, &row_payload(2, "committed_before_tail"));
    let committed_len = committed.len();
    let mut tail = wal_frame(2, 3, WAL_STATE_COMMITTED, &row_payload(3, "tail_garbage"));
    tail.truncate(WAL_HEADER_LEN + 2);
    let mut wal = committed;
    wal.extend_from_slice(&tail);
    files.wal = Some(wal);
    assert_eq!("id|name\n1|seed\n2|committed_before_tail\n", select_items(&mut files));
    assert_eq!(Some(committed_len), files.wal.as_ref().map(|w| w.len()));
}

fn users_table_only() -> DatabaseFiles {
    let mut files = DatabaseFiles { data: None, wal: None };
    execute(&mut files, "CREATE TABLE users (id INT, name TEXT);").expect("table should be created");
    files
}

#[test]
fn rows_committed_through_the_log_survive_reopen() {
    let mut files = DatabaseFiles { data: None, wal: None };
    execute(
        &mut files,
        "CREATE TABLE users (id INT, name TEXT); INSERT INTO users VALUES (1, 'ada'); INSERT INTO users VALUES (2, 'bea');",
    )
    .expect("writes should succeed");
    assert!(files.wal.as_ref().map_or(false, |w| !w.is_empty()));
    assert_eq!("id|name\n1|ada\n2|bea\n", select_from(&mut files, "SELECT * FROM users;"));
}

#[test]
fn rolled_back_frame_after_a_committed_one_is_not_replayed() {
    let mut files = users_table_only();
    let mut wal = wal_frame(1, 1, WAL_STATE_COMMITTED, &row_in("users", 1, "ada"));
    wal.extend_from_slice(&wal_frame(2, 2, WAL_STATE_ROLLED_BACK, &row_in("users", 9, "ghost")));
    files.wal = Some(wal);
    assert_eq!("id|name\n1|ada\n", select_from(&mut files, "SELECT * FROM users;"));
    assert_eq!("id|name\n1|ada\n", select_from(&mut files, "SELECT * FROM users;"));
}

#[test]
fn frame_appended_after_a_cut_tail_is_replayed() {
    let mut files = users_table_only();
    let ada = wal_frame(1, 1, WAL_STATE_COMMITTED, &row_in("users", 1, "ada"));
    let ada_len = ada.len();
    let mut ghost = wal_frame(2, 2, WAL_STATE_COMMITTED, &row_in("users", 9, "ghost"));
    ghost.truncate(WAL_HEADER_LEN + 4);
    let mut wal = ada;
    wal.extend_from_slice(&ghost);
    files.wal = Some(wal);
    assert_eq!("id|name\n1|ada\n", select_from(&mut files, "SELECT * FROM users;"));
    assert_eq!(Some(ada_len), files.wal.as_ref().map(|w| w.len()));
    let bea = wal_frame(2, 2, WAL_STATE_COMMITTED, &row_in("users", 2, "bea"));
    files.wal.as_mut().expect("log should remain").extend_from_slice(&bea);
    assert_eq!("id|name\n1|ada\n2|bea\n", select_from(&mut files, "SELECT * FROM users;"));
}

#[test]
fn committed_frame_ahead_of_the_store_fails_to_open() {
    let mut files = users_table_only();
    files.wal = Some(wal_frame(1, 2, WAL_STATE_COMMITTED, &row_in("users", 9, "ghost")));
    match execute(&mut files, "SELECT * FROM users;") {
        Ok(_) => panic!("a log ahead of the store should not open"),
        Err(error) => {
            let (text, code) = error.report();
            assert_eq!(1, code);
            assert_eq!(
                "error: storage error: CorruptRecordLength\nhint: database file must use the documented V1 page format.\n",
                String::from_utf8(text).expect("stderr should be UTF-8")
            );
        }
    }
}
