use persistent_db_core::file_writes::changed_units;
use persistent_db_core::page::StorageError;
use persistent_db_core::storage::PageStore;

const PAGE_SIZE: usize = 4096;
const FILE_MAGIC: &[u8; 8] = b"PDBV1\0\0\0";
const PAGE_MAGIC: &[u8; 4] = b"PDPG";
const FORMAT_VERSION_OFFSET: usize = 8;
const PAGE_COUNT_OFFSET: usize = 16;
const DATA_PAGE_HEADER_SIZE: usize = 16;
const FIRST_RECORD_LENGTH_OFFSET: usize = PAGE_SIZE + DATA_PAGE_HEADER_SIZE;

fn assert_storage_error<T>(result: Result<T, StorageError>, expected: StorageError) {
    match result {
        Ok(_) => panic!("operation should return a deterministic storage error"),
        Err(actual) => assert_eq!(expected, actual),
    }
}

fn header(version: u16, page_count: u64) -> Vec<u8> {
    let mut page = vec![0u8; PAGE_SIZE];
    page[0..8].copy_from_slice(FILE_MAGIC);
    page[FORMAT_VERSION_OFFSET..FORMAT_VERSION_OFFSET + 2].copy_from_slice(&version.to_le_bytes());
    page[10..12].copy_from_slice(&(PAGE_SIZE as u16).to_le_bytes());
    page[12..16].copy_from_slice(&(PAGE_SIZE as u32).to_le_bytes());
    page[PAGE_COUNT_OFFSET..PAGE_COUNT_OFFSET + 8].copy_from_slice(&page_count.to_le_bytes());
    page
}

fn header_and_data_page() -> Vec<u8> {
    let mut image = header(1, 2);
    let mut page = vec![0u8; PAGE_SIZE];
    page[0..4].copy_from_slice(PAGE_MAGIC);
    page[4..6].copy_from_slice(&1u16.to_le_bytes());
    page[6..8].copy_from_slice(&(DATA_PAGE_HEADER_SIZE as u16).to_le_bytes());
    page[8..10].copy_from_slice(&(DATA_PAGE_HEADER_SIZE as u16).to_le_bytes());
    page[10..12].copy_from_slice(&0u16.to_le_bytes());
    image.extend_from_slice(&page);
    image
}

fn files_of(store: &PageStore) -> (Option<Vec<u8>>, Option<Vec<u8>>) {
    (Some(store.file_bytes().clone()), store.wal_bytes().cloned())
}

#[test]
fn append_read_preserves_order_and_bytes() {
    let mut store = PageStore::open(None, None).expect("store should open");
    store.append_record(b"alpha").expect("append should succeed");
    store.append_record(b"beta").expect("append should succeed");
    assert_eq!(vec![b"alpha".to_vec(), b"beta".to_vec()], store.read_records().expect("read should succeed"));
    let bytes = store.file_bytes();
    assert_eq!(0, bytes.len() % PAGE_SIZE, "file length must be page aligned");
    assert_eq!(FILE_MAGIC, &bytes[0..8]);
    assert_eq!(&1u16.to_le_bytes(), &bytes[FORMAT_VERSION_OFFSET..FORMAT_VERSION_OFFSET + 2]);
    assert_eq!(PAGE_MAGIC, &bytes[PAGE_SIZE..PAGE_SIZE + 4]);
    assert_eq!(&5u32.to_le_bytes(), &bytes[FIRST_RECORD_LENGTH_OFFSET..FIRST_RECORD_LENGTH_OFFSET + 4]);
}

#[test]
fn reopen_reads_previously_appended_records() {
    let (data, wal) = {
        let mut store = PageStore::open(None, None).expect("store should open");
        store.append_record(b"alpha").expect("append should succeed");
        store.append_record(b"beta").expect("append should succeed");
        files_of(&store)
    };
    let reopened = PageStore::open(data, wal).expect("store should reopen");
    assert_eq!(vec![b"alpha".to_vec(), b"beta".to_vec()], reopened.read_records().expect("read should succeed"));
}

#[test]
fn record_encoding_supports_empty_ascii_and_binary_payloads() {
    let expected = vec![b"".to_vec(), b"alpha".to_vec(), b"beta".to_vec(), vec![0x00, 0xff, 0x10]];
    let mut store = PageStore::open(None, None).expect("store should open");
    for payload in &expected {
        store.append_record(payload).expect("append should succeed");
    }
    assert_eq!(expected, store.read_records().expect("read should succeed"));
}

#[test]
fn truncated_file_returns_error() {
    assert_storage_error(PageStore::open(Some(b"short".to_vec()), None), StorageError::TruncatedFile);
}

#[test]
fn truncated_page_returns_error() {
    let mut image = header(1, 2);
    image.extend_from_slice(&[0u8; 32]);
    assert_storage_error(PageStore::open(Some(image), None), StorageError::TruncatedPage);
}

#[test]
fn invalid_magic_returns_error() {
    let mut image = header(1, 1);
    image[0..8].copy_from_slice(b"NOTPDB!!");
    assert_storage_error(PageStore::open(Some(image), None), StorageError::InvalidMagic);
}

#[test]
fn invalid_data_page_magic_returns_error() {
    let mut image = header_and_data_page();
    image[PAGE_SIZE..PAGE_SIZE + 4].copy_from_slice(b"BAD!");
    assert_storage_error(PageStore::open(Some(image), None), StorageError::InvalidMagic);
}

#[test]
fn unsupported_format_version_returns_error() {
    assert_storage_error(PageStore::open(Some(header(2, 1)), None), StorageError::UnsupportedVersion);
}

#[test]
fn page_overflow_record_returns_error() {
    let mut store = PageStore::open(None, None).expect("store should open");
    assert_storage_error(store.append_record(&vec![0u8; PAGE_SIZE]), StorageError::RecordTooLarge);
}

#[test]
fn corrupt_record_length_returns_error() {
    let (data, wal) = {
        let mut store = PageStore::open(None, None).expect("store should open");
        store.append_record(b"alpha").expect("append should succeed");
        files_of(&store)
    };
    let mut image = data.expect("store file should exist");
    image[FIRST_RECORD_LENGTH_OFFSET..FIRST_RECORD_LENGTH_OFFSET + 4].copy_from_slice(&(PAGE_SIZE as u32).to_le_bytes());
    assert_storage_error(PageStore::open(Some(image), wal), StorageError::CorruptRecordLength);
}

#[test]
fn largest_record_fits_and_one_more_byte_is_refused() {
    let mut store = PageStore::open(None, None).expect("store should open");
    store.append_record(&vec![7u8; 4076]).expect("a full page record should fit");
    assert_storage_error(store.append_record(&vec![7u8; 4077]), StorageError::RecordTooLarge);
    assert_eq!(1, store.record_count());
}

#[test]
fn committed_log_frame_without_file_record_is_replayed_once() {
    let (data, wal) = {
        let mut store = PageStore::open(None, None).expect("store should open");
        store.append_record(b"alpha").expect("append should succeed");
        files_of(&store)
    };
    let mut wal = wal;
    persistent_db_core::storage::append_committed_wal_record_for_bench(&mut wal, 1, b"beta").expect("frame should append");
    let store = PageStore::open(data, wal).expect("store should replay the log");
    assert_eq!(vec![b"alpha".to_vec(), b"beta".to_vec()], store.read_records().expect("read should succeed"));
    let (data2, wal2) = files_of(&store);
    let again = PageStore::open(data2, wal2).expect("store should reopen");
    assert_eq!(2, again.record_count());
}

#[test]
fn incomplete_log_tail_is_cut_on_open() {
    let (data, wal) = {
        let mut store = PageStore::open(None, None).expect("store should open");
        store.append_record(b"alpha").expect("append should succeed");
        files_of(&store)
    };
    let mut wal = wal.expect("log should exist");
    let complete = wal.len();
    wal.extend_from_slice(&[0x50, 0x44, 0x42]);
    let store = PageStore::open(data, Some(wal)).expect("store should open");
    assert_eq!(Some(complete), store.wal_bytes().map(|w| w.len()));
    assert_eq!(vec![b"alpha".to_vec()], store.read_records().expect("read should succeed"));
}

#[test]
fn an_append_changes_only_the_pages_it_touches() {
    let mut store = PageStore::open(None, None).expect("store should open");
    store.append_record(b"alpha").expect("append should succeed");
    let before = store.file_bytes().clone();
    let log_before = store.wal_bytes().cloned().expect("log should exist");
    store.append_record(b"beta").expect("append should succeed");
    let after = store.file_bytes().clone();
    let log_after = store.wal_bytes().cloned().expect("log should exist");
    let pages = changed_units(&before, &after, PAGE_SIZE);
    assert!(!pages.is_empty());
    let mut rebuilt = before.clone();
    rebuilt.resize(after.len(), 0);
    for offset in &pages {
        let end = (offset + PAGE_SIZE).min(after.len());
        rebuilt[*offset..end].copy_from_slice(&after[*offset..end]);
    }
    assert_eq!(after, rebuilt);
    for offset in (0..after.len()).step_by(PAGE_SIZE) {
        let end = (offset + PAGE_SIZE).min(after.len());
        let same = end <= before.len() && before[offset..end] == after[offset..end];
        assert_eq!(!same, pages.contains(&offset));
    }
    assert_eq!(vec![0usize], changed_units(&log_before, &log_after, PAGE_SIZE));
    assert_eq!(vec![3usize], changed_units(b"abcd", b"abcX", 1));
    assert_eq!(Vec::<usize>::new(), changed_units(b"abcd", b"ab", 1));
    assert_eq!(vec![2usize, 3], changed_units(b"ab", b"abcd", 1));
}
