//! The SQL engine's public face: its errors, the access paths a query
//! takes, and running SQL text against the bytes of a database's files.
use crate::engine::{execute_select, execute_select_where, select_all_spec, select_where_spec, table_not_found, table_not_found_error};
use crate::lexer::{trim, trim_copy};
use crate::page::{StorageError, file_check, rec_view};
use crate::parser::{Predicate, Statement, StatementM, parse_statements, statements_spec, statements_view};
use crate::replay::replay_spec;
use crate::run::{execute_statements, run_spec, stopped_for_room};
use crate::schema::{Database, TableM, db_ok, find_table, find_table_index, index_for_column, same_name};
use crate::storage::{PageStore, open_result, room_for_record, read_committed_wal_records_for_check, read_records_for_check};
use crate::wal::{count_frames, wal_scan};
use crate::record::{Column, ColumnM, ColumnType, EmbeddedIndexEntry, EntryM, RecordM, TieBreakMode, Value, ValueM, encode_record};
use crate::statements::{append_all, appendable, out_of_room, too_large_from};
use vstd::prelude::*;
use vstd::string::*;

verus! {

/// The advice that goes with a semantic error.
#[derive(Debug, Clone, Copy, PartialEq, Eq, Structural)]
pub enum Hint {
    NewTableName,
    UniqueColumns,
    OneIntPrimaryKey,
    NewIndexName,
    IndexExistingColumn,
    IndexIntColumn,
    UniquePrimaryKey,
    UpdateExistingColumn,
    UpdateNonKeyColumn,
    UpdateType,
    KeyPredicate,
    InsertSchema,
    InsertTypes,
    CreateTableFirst,
    CreateTableBeforeIndex,
}

/// The text of a hint.
pub open spec fn hint_text(h: Hint) -> Seq<char> {
    match h {
        Hint::NewTableName => "use a new table name for CREATE TABLE in this database."@,
        Hint::UniqueColumns => "column names in a table must be unique."@,
        Hint::OneIntPrimaryKey => "this SQL slice supports one INT PRIMARY KEY column per table."@,
        Hint::NewIndexName => "use a new index name for CREATE INDEX in this database."@,
        Hint::IndexExistingColumn => "create the index on an existing table column."@,
        Hint::IndexIntColumn => "this SQL slice supports secondary indexes only on INT columns."@,
        Hint::UniquePrimaryKey => "primary key values must be unique."@,
        Hint::UpdateExistingColumn => "UPDATE can SET an existing non-primary-key column."@,
        Hint::UpdateNonKeyColumn => "this SQL slice supports UPDATE of non-primary-key columns only."@,
        Hint::UpdateType => "UPDATE values must match the declared column type."@,
        Hint::KeyPredicate => "UPDATE and DELETE require WHERE on the INT PRIMARY KEY column."@,
        Hint::InsertSchema => "INSERT values must match the table schema exactly."@,
        Hint::InsertTypes => "INSERT values must match the declared column types."@,
        Hint::CreateTableFirst => "create the table before INSERT or SELECT."@,
        Hint::CreateTableBeforeIndex => "create the table before INSERT, SELECT, or CREATE INDEX."@,
    }
}

/// The bytes of a hint's text.
pub open spec fn hint_bytes(h: Hint) -> Seq<u8> {
    match h {
        Hint::NewTableName => "use a new table name for CREATE TABLE in this database.".spec_bytes(),
        Hint::UniqueColumns => "column names in a table must be unique.".spec_bytes(),
        Hint::OneIntPrimaryKey => "this SQL slice supports one INT PRIMARY KEY column per table.".spec_bytes(),
        Hint::NewIndexName => "use a new index name for CREATE INDEX in this database.".spec_bytes(),
        Hint::IndexExistingColumn => "create the index on an existing table column.".spec_bytes(),
        Hint::IndexIntColumn => "this SQL slice supports secondary indexes only on INT columns.".spec_bytes(),
        Hint::UniquePrimaryKey => "primary key values must be unique.".spec_bytes(),
        Hint::UpdateExistingColumn => "UPDATE can SET an existing non-primary-key column.".spec_bytes(),
        Hint::UpdateNonKeyColumn => "this SQL slice supports UPDATE of non-primary-key columns only.".spec_bytes(),
        Hint::UpdateType => "UPDATE values must match the declared column type.".spec_bytes(),
        Hint::KeyPredicate => "UPDATE and DELETE require WHERE on the INT PRIMARY KEY column.".spec_bytes(),
        Hint::InsertSchema => "INSERT values must match the table schema exactly.".spec_bytes(),
        Hint::InsertTypes => "INSERT values must match the declared column types.".spec_bytes(),
        Hint::CreateTableFirst => "create the table before INSERT or SELECT.".spec_bytes(),
        Hint::CreateTableBeforeIndex => "create the table before INSERT, SELECT, or CREATE INDEX.".spec_bytes(),
    }
}

impl Hint {
    /// The text of the hint.
    pub fn text(self) -> (r: &'static str)
        ensures
            r@ == hint_text(self),
            r.spec_bytes() == hint_bytes(self),
    {
        match self {
            Hint::NewTableName => "use a new table name for CREATE TABLE in this database.",
            Hint::UniqueColumns => "column names in a table must be unique.",
            Hint::OneIntPrimaryKey => "this SQL slice supports one INT PRIMARY KEY column per table.",
            Hint::NewIndexName => "use a new index name for CREATE INDEX in this database.",
            Hint::IndexExistingColumn => "create the index on an existing table column.",
            Hint::IndexIntColumn => "this SQL slice supports secondary indexes only on INT columns.",
            Hint::UniquePrimaryKey => "primary key values must be unique.",
            Hint::UpdateExistingColumn => "UPDATE can SET an existing non-primary-key column.",
            Hint::UpdateNonKeyColumn => "this SQL slice supports UPDATE of non-primary-key columns only.",
            Hint::UpdateType => "UPDATE values must match the declared column type.",
            Hint::KeyPredicate => "UPDATE and DELETE require WHERE on the INT PRIMARY KEY column.",
            Hint::InsertSchema => "INSERT values must match the table schema exactly.",
            Hint::InsertTypes => "INSERT values must match the declared column types.",
            Hint::CreateTableFirst => "create the table before INSERT or SELECT.",
            Hint::CreateTableBeforeIndex => "create the table before INSERT, SELECT, or CREATE INDEX.",
        }
    }
}

/// Why SQL text could not be run. Statement texts and messages are UTF-8.
#[derive(Debug, Clone, PartialEq, Eq)]
pub enum SqlError {
    Unsupported(Vec<u8>),
    Malformed(Vec<u8>),
    Semantic { message: Vec<u8>, hint: Hint },
    InvalidStorageRecord,
    DuplicateStoredKey { table: Vec<u8>, key: i64 },
    Storage(StorageError),
}

/// The model of a `SqlError`.
pub enum SqlErrorM {
    Unsupported(Seq<u8>),
    Malformed(Seq<u8>),
    Semantic(Seq<u8>, Hint),
    InvalidStorageRecord,
    DuplicateStoredKey(Seq<u8>, i64),
    Storage(StorageError),
}

impl View for SqlError {
    type V = SqlErrorM;

    open spec fn view(&self) -> SqlErrorM {
        match self {
            SqlError::Unsupported(s) => SqlErrorM::Unsupported(s@),
            SqlError::Malformed(s) => SqlErrorM::Malformed(s@),
            SqlError::Semantic { message, hint } => SqlErrorM::Semantic(message@, *hint),
            SqlError::InvalidStorageRecord => SqlErrorM::InvalidStorageRecord,
            SqlError::DuplicateStoredKey { table, key } => SqlErrorM::DuplicateStoredKey(table@, *key),
            SqlError::Storage(e) => SqlErrorM::Storage(*e),
        }
    }
}

impl SqlError {
    /// A copy of the error.
    pub fn clone_error(&self) -> (r: SqlError)
        ensures
            r@ == self@,
    {
        match self {
            SqlError::Unsupported(s) => SqlError::Unsupported(copy_vec(s)),
            SqlError::Malformed(s) => SqlError::Malformed(copy_vec(s)),
            SqlError::Semantic { message, hint } => SqlError::Semantic { message: copy_vec(message), hint: *hint },
            SqlError::InvalidStorageRecord => SqlError::InvalidStorageRecord,
            SqlError::DuplicateStoredKey { table, key } => SqlError::DuplicateStoredKey { table: copy_vec(table), key: *key },
            SqlError::Storage(e) => SqlError::Storage(*e),
        }
    }
}

fn copy_vec(v: &Vec<u8>) -> (r: Vec<u8>)
    ensures
        r@ == v@,
{
    let r = crate::bytes::copy_range(v.as_slice(), 0, v.len());
    assert(v@.subrange(0, v@.len() as int) =~= v@);
    r
}

/// The contents of a database's two files: its store file and its
/// write-ahead log; `None` where the file does not exist.
pub struct DatabaseFiles {
    pub data: Option<Vec<u8>>,
    pub wal: Option<Vec<u8>>,
}

/// The contents of a file, if it exists.
pub open spec fn file_view(f: Option<Vec<u8>>) -> Option<Seq<u8>> {
    match f {
        Some(v) => Some(v@),
        None => None,
    }
}

/// An empty store file counts as no file.
pub open spec fn present(data: Option<Seq<u8>>) -> Option<Seq<u8>> {
    match data {
        Some(d) => if d.len() == 0 {
            None
        } else {
            Some(d)
        },
        None => None,
    }
}

/// The machine can hold an open store of these files.
pub open spec fn fits_machine(data: Option<Seq<u8>>, wal: Option<Seq<u8>>) -> bool {
    (match data {
        Some(i) => i.len(),
        None => 4096,
    }) + 256 * (match wal {
        Some(w) => w.len(),
        None => 0,
    }) + 8192 <= usize::MAX
}

/// An existing store file and
/// the committed log records that apply to it describe a database.
pub open spec fn replayable_check(data: Option<Seq<u8>>, wal: Option<Seq<u8>>) -> Result<(), SqlErrorM> {
    match data {
        None => Ok(()),
        Some(img) => match file_check(img) {
            Err(e) => Err(SqlErrorM::Storage(e)),
            Ok(records) => {
                let all = match wal {
                    None => Ok(records),
                    Some(w) => match wal_scan(w, 0, records.len() as int) {
                        Err(e) => Err(e),
                        Ok((found, _)) => Ok(records + found),
                    },
                };
                match all {
                    Err(e) => Err(SqlErrorM::Storage(e)),
                    Ok(a) => if replay_spec(a) is Err {
                        Err(crate::replay::replay_error(a))
                    } else {
                        Ok(())
                    },
                }
            },
        },
    }
}

/// The records of the store that opening the files gives, or why the files
/// cannot be opened; an empty store file counts as none.
pub open spec fn opened_records(data: Option<Seq<u8>>, wal: Option<Seq<u8>>) -> Result<Seq<Seq<u8>>, SqlErrorM> {
    let d = present(data);
    if !fits_machine(d, wal) {
        Err(SqlErrorM::Storage(StorageError::Io))
    } else {
        match replayable_check(d, wal) {
            Err(e) => Err(e),
            Ok(()) => match open_result(d, wal) {
                Err(e) => Err(SqlErrorM::Storage(e)),
                Ok(records) => Ok(records),
            },
        }
    }
}

/// The files of a store: reopening them gives back the records `s1`.
pub open spec fn store_files(data: Option<Seq<u8>>, wal: Option<Seq<u8>>, s1: Seq<Seq<u8>>) -> bool {
    &&& data is Some
    &&& open_result(data, wal) == Ok::<Seq<Seq<u8>>, StorageError>(s1)
}

/// Where running SQL text leaves the files and what it answers: an error
/// before the store opens leaves the files as they were; otherwise the
/// files hold the opened store with the records that the statements
/// appended, up to the first error (or a stop for lack of room).
pub open spec fn execute_post(
    r: Result<Vec<u8>, SqlError>,
    data0: Option<Seq<u8>>,
    wal0: Option<Seq<u8>>,
    data1: Option<Seq<u8>>,
    wal1: Option<Seq<u8>>,
    sql: Seq<u8>,
) -> bool {
    match opened_records(data0, wal0) {
        Err(e) => r matches Err(x) && x@ == e && data1 == present(data0) && wal1 == wal0,
        Ok(s0) => exists|s1: Seq<Seq<u8>>| {
            &&& store_files(data1, wal1, s1)
            &&& match replay_spec(s0) {
                Err(_) => r matches Err(x) && x@ == crate::replay::replay_error(s0) && s1 == s0,
                Ok(d0) => match statements_spec(sql) {
                    Err(e) => r matches Err(x) && x@ == e && s1 == s0,
                    Ok(sts) => run_answer(r, s0, s1, d0, room_for_record(data1->Some_0, wal1, s1.len() as int), sts),
                },
            }
        },
    }
}

/// What running statements gives, as its caller sees it: the text, or the
/// error, with the records appended; or a stop for lack of room, where
/// `room` says whether the files left could take another record.
pub open spec fn run_answer(
    r: Result<Vec<u8>, SqlError>,
    s0: Seq<Seq<u8>>,
    s1: Seq<Seq<u8>>,
    d0: Seq<TableM>,
    room: bool,
    sts: Seq<StatementM>,
) -> bool {
    let (res, ps) = run_spec(d0, sts, s0.len() as int);
    stopped_for_room(r, s0, s1, ps, room) || match res {
        Ok((_, out)) => r matches Ok(o) && o@ == out && s1 == s0 + ps,
        Err(e) => r matches Err(x) && x@ == e && s1 == s0 + ps,
    }
}

fn is_empty_file(data: &Option<Vec<u8>>) -> (r: bool)
    ensures
        r == (file_view(*data) matches Some(d) && d.len() == 0),
{
    match data {
        Some(d) => d.len() == 0,
        None => false,
    }
}

/// An empty store file counts as no file.
fn drop_empty_data(files: &mut DatabaseFiles)
    ensures
        file_view(final(files).data) == present(file_view(old(files).data)),
        file_view(final(files).wal) == file_view(old(files).wal),
{
    if is_empty_file(&files.data) {
        files.data = None;
    }
}

fn files_fit(files: &DatabaseFiles) -> (r: bool)
    ensures
        r == fits_machine(file_view(files.data), file_view(files.wal)),
{
    let d: usize = match &files.data {
        Some(i) => i.len(),
        None => 4096,
    };
    let w: usize = match &files.wal {
        Some(v) => v.len(),
        None => 0,
    };
    d <= usize::MAX - 8192 && w <= (usize::MAX - 8192 - d) / 256
}

/// Checks that the store file and the log records that apply to it
/// describe a database.
fn validate_replayable_records_before_open(files: &DatabaseFiles) -> (r: Result<(), SqlError>)
    ensures
        match replayable_check(file_view(files.data), file_view(files.wal)) {
            Ok(()) => r is Ok,
            Err(e) => r matches Err(x) && x@ == e,
        },
{
    let img = match &files.data {
        None => {
            return Ok(());
        },
        Some(i) => i,
    };
    let snapshot = match read_records_for_check(Some(img.as_slice())) {
        Ok(s) => s,
        Err(e) => {
            return Err(SqlError::Storage(e));
        },
    };
    let wal: Option<&[u8]> = match &files.wal {
        Some(w) => Some(w.as_slice()),
        None => None,
    };
    let mut found = match read_committed_wal_records_for_check(wal, snapshot.record_count) {
        Ok(f) => f,
        Err(e) => {
            return Err(SqlError::Storage(e));
        },
    };
    let mut records = snapshot.records;
    let ghost a = rec_view(records@);
    let ghost b = rec_view(found@);
    records.append(&mut found);
    assert(rec_view(records@) =~= a + b);
    match Database::from_records(records) {
        Ok(_) => Ok(()),
        Err(e) => Err(e),
    }
}

fn copy_file(f: &Option<Vec<u8>>) -> (r: Option<Vec<u8>>)
    ensures
        file_view(r) == file_view(*f),
{
    match f {
        Some(v) => Some(copy_vec(v)),
        None => None,
    }
}

/// Writes the store's bytes back to the files.
fn write_back(files: &mut DatabaseFiles, store: &PageStore)
    requires
        store.wf(),
    ensures
        store_files(file_view(final(files).data), file_view(final(files).wal), store.records()),
        file_view(final(files).data) == Some(store.file_view()),
        file_view(final(files).wal) == store.wal_view(),
{
    files.data = Some(copy_vec(store.file_bytes()));
    files.wal = match store.wal_bytes() {
        Some(w) => Some(copy_vec(w)),
        None => None,
    };
    proof {
        crate::storage::lemma_reopen_is_identity(*store);
    }
}

/// Opens the store of the files and rebuilds its database.
fn open_database(files: &mut DatabaseFiles) -> (r: Result<(PageStore, Database), SqlError>)
    ensures
        match opened_records(file_view(old(files).data), file_view(old(files).wal)) {
            Err(e) => r matches Err(x) && x@ == e && file_view(final(files).data) == present(file_view(old(files).data))
                && file_view(final(files).wal) == file_view(old(files).wal),
            Ok(s0) => match replay_spec(s0) {
                Err(_) => r matches Err(x) && x@ == crate::replay::replay_error(s0) && store_files(
                    file_view(final(files).data),
                    file_view(final(files).wal),
                    s0,
                ),
                Ok(d0) => r matches Ok((store, db)) && store.wf() && store.records() == s0 && db@ == d0 && db_ok(db@),
            },
        },
{
    drop_empty_data(files);
    if !files_fit(files) {
        return Err(SqlError::Storage(StorageError::Io));
    }
    validate_replayable_records_before_open(files)?;
    let data = copy_file(&files.data);
    let wal = copy_file(&files.wal);
    let store = match PageStore::open(data, wal) {
        Ok(s) => s,
        Err(e) => {
            return Err(SqlError::Storage(e));
        },
    };
    let records = match store.read_records() {
        Ok(r) => r,
        Err(e) => {
            return Err(SqlError::Storage(e));
        },
    };
    match Database::from_records(records) {
        Ok(db) => Ok((store, db)),
        Err(e) => {
            write_back(files, &store);
            Err(e)
        },
    }
}

/// Runs SQL text against the database in the files, writing
/// the store back to them; the text the statements print.
pub fn execute(files: &mut DatabaseFiles, sql: &str) -> (r: Result<Vec<u8>, SqlError>)
    ensures
        execute_post(
            r,
            file_view(old(files).data),
            file_view(old(files).wal),
            file_view(final(files).data),
            file_view(final(files).wal),
            sql.spec_bytes(),
        ),
{
    let ghost d0 = file_view(files.data);
    let ghost w0 = file_view(files.wal);
    let (mut store, mut db) = match open_database(files) {
        Ok(x) => x,
        Err(e) => {
            return Err(e);
        },
    };
    let ghost s0 = store.records();
    let ghost db0 = db@;
    let statements = match parse_statements(sql.as_bytes()) {
        Ok(v) => v,
        Err(e) => {
            write_back(files, &store);
            assert(store_files(file_view(files.data), file_view(files.wal), s0));
            return Err(e);
        },
    };
    let ghost sts = statements_view(statements@);
    let res = execute_statements(&mut store, &mut db, statements);
    write_back(files, &store);
    proof {
        let s1 = store.records();
        assert(store_files(file_view(files.data), file_view(files.wal), s1));
        store.lemma_append_fits();
        assert(run_answer(res, s0, s1, db0, store.append_fits(), sts));
    }
    res
}

/// How a query reaches its rows.
#[derive(Debug, Clone, PartialEq, Eq)]
pub enum QueryPath {
    PrimaryIndex { table: Vec<u8>, column: Vec<u8> },
    SecondaryIndexEquality { table: Vec<u8>, index: Vec<u8>, column: Vec<u8> },
    SecondaryIndexRange { table: Vec<u8>, index: Vec<u8>, column: Vec<u8> },
    FullTableScan { table: Vec<u8> },
}

/// The model of a `QueryPath`.
pub enum QueryPathM {
    PrimaryIndex { table: Seq<u8>, column: Seq<u8> },
    SecondaryIndexEquality { table: Seq<u8>, index: Seq<u8>, column: Seq<u8> },
    SecondaryIndexRange { table: Seq<u8>, index: Seq<u8>, column: Seq<u8> },
    FullTableScan { table: Seq<u8> },
}

impl View for QueryPath {
    type V = QueryPathM;

    open spec fn view(&self) -> QueryPathM {
        match self {
            QueryPath::PrimaryIndex { table, column } => QueryPathM::PrimaryIndex { table: table@, column: column@ },
            QueryPath::SecondaryIndexEquality { table, index, column } => QueryPathM::SecondaryIndexEquality {
                table: table@,
                index: index@,
                column: column@,
            },
            QueryPath::SecondaryIndexRange { table, index, column } => QueryPathM::SecondaryIndexRange {
                table: table@,
                index: index@,
                column: column@,
            },
            QueryPath::FullTableScan { table } => QueryPathM::FullTableScan { table: table@ },
        }
    }
}

/// A `SELECT *` scans the table; a `WHERE` on a column
/// with a secondary index uses that index, by equality or by range; an
/// equality on the primary key uses the primary index; any other statement
/// is not a supported query.
pub open spec fn plan_spec(db: Seq<TableM>, st: StatementM) -> Result<QueryPathM, SqlErrorM> {
    match st {
        StatementM::SelectAll { table } => match find_table(db, table) {
            None => Err(table_not_found(table, Hint::CreateTableFirst)),
            Some(i) => Ok(QueryPathM::FullTableScan { table: db[i].name }),
        },
        StatementM::SelectWhere { table, column, predicate, raw } => match find_table(db, table) {
            None => Err(table_not_found(table, Hint::CreateTableFirst)),
            Some(i) => {
                let t = db[i];
                match index_for_column(t, column) {
                    Some(j) => {
                        let x = t.indexes[j];
                        let cname = t.columns[x.column as int].name;
                        match predicate {
                            Predicate::Equality(_) => Ok(
                                QueryPathM::SecondaryIndexEquality { table: t.name, index: x.name, column: cname },
                            ),
                            Predicate::Range { .. } => Ok(
                                QueryPathM::SecondaryIndexRange { table: t.name, index: x.name, column: cname },
                            ),
                        }
                    },
                    None => match t.pk {
                        Some(c) => if same_name(t.columns[c as int].name, column) && predicate is Equality {
                            Ok(QueryPathM::PrimaryIndex { table: t.name, column: t.columns[c as int].name })
                        } else {
                            Err(SqlErrorM::Unsupported(raw))
                        },
                        None => Err(SqlErrorM::Unsupported(raw)),
                    },
                }
            },
        },
        _ => Err(SqlErrorM::Unsupported(Seq::empty())),
    }
}

/// How a query reaches its rows, or why it cannot be run.
pub fn plan_query_path(db: &Database, st: &Statement) -> (r: Result<QueryPath, SqlError>)
    requires
        db_ok(db@),
    ensures
        match plan_spec(db@, st@) {
            Ok(q) => r matches Ok(x) && x@ == q,
            Err(e) => r matches Err(x) && x@ == e,
        },
{
    match st {
        Statement::SelectAll { table } => {
            let i = match find_table_index(db, table.as_slice()) {
                None => {
                    return Err(table_not_found_error(table.as_slice(), Hint::CreateTableFirst));
                },
                Some(i) => i,
            };
            assert(db@[i as int] == db.tables@[i as int]@);
            Ok(QueryPath::FullTableScan { table: copy_vec(&db.tables[i].name) })
        },
        Statement::SelectWhere { table, column, predicate, raw } => {
            let i = match find_table_index(db, table.as_slice()) {
                None => {
                    return Err(table_not_found_error(table.as_slice(), Hint::CreateTableFirst));
                },
                Some(i) => i,
            };
            let t = &db.tables[i];
            assert(db@[i as int] == t@);
            assert(crate::schema::table_ok(t@));
            proof {
                crate::rows::lemma_table_ok_parts(t@);
            }
            match crate::schema::secondary_index_for_column(t, column.as_slice()) {
                Some(j) => {
                    let x = &t.secondary_indexes[j];
                    assert(t@.indexes[j as int] == x@);
                    assert(x@.column < t@.columns.len());
                    assert(t@.columns[x.indexed_column as int] == t.columns@[x.indexed_column as int]@);
                    let cname = copy_vec(&t.columns[x.indexed_column].name);
                    match predicate {
                        Predicate::Equality(_) => Ok(
                            QueryPath::SecondaryIndexEquality { table: copy_vec(&t.name), index: copy_vec(&x.name), column: cname },
                        ),
                        Predicate::Range { .. } => Ok(
                            QueryPath::SecondaryIndexRange { table: copy_vec(&t.name), index: copy_vec(&x.name), column: cname },
                        ),
                    }
                },
                None => match t.primary_key_column {
                    Some(c) => {
                        assert(t@.columns[c as int] == t.columns@[c as int]@);
                        if crate::text::eq_ignore_ascii_case(t.columns[c].name.as_slice(), column.as_slice()) && matches!(
                            predicate,
                            Predicate::Equality(_)
                        ) {
                            Ok(QueryPath::PrimaryIndex { table: copy_vec(&t.name), column: copy_vec(&t.columns[c].name) })
                        } else {
                            Err(SqlError::Unsupported(copy_vec(raw)))
                        }
                    },
                    None => Err(SqlError::Unsupported(copy_vec(raw))),
                },
            }
        },
        _ => {
            let empty: Vec<u8> = Vec::new();
            assert(empty@ =~= Seq::<u8>::empty());
            Err(SqlError::Unsupported(empty))
        },
    }
}

/// The database that opening the files gives, with its records.
pub open spec fn opened_db(data: Option<Seq<u8>>, wal: Option<Seq<u8>>) -> Result<(Seq<Seq<u8>>, Seq<TableM>), SqlErrorM> {
    match opened_records(data, wal) {
        Err(e) => Err(e),
        Ok(s0) => match replay_spec(s0) {
            Err(_) => Err(crate::replay::replay_error(s0)),
            Ok(d0) => Ok((s0, d0)),
        },
    }
}

/// The files after opening them and appending nothing: as they were when
/// the store could not be opened, else the opened store.
pub open spec fn files_after_open(data0: Option<Seq<u8>>, wal0: Option<Seq<u8>>, data1: Option<Seq<u8>>, wal1: Option<Seq<u8>>) -> bool {
    match opened_records(data0, wal0) {
        Err(_) => data1 == present(data0) && wal1 == wal0,
        Ok(s0) => store_files(data1, wal1, s0),
    }
}

/// The one statement of a query text.
pub open spec fn single_statement(sql: Seq<u8>) -> Result<StatementM, SqlErrorM> {
    match statements_spec(sql) {
        Err(e) => Err(e),
        Ok(sts) => if sts.len() != 1 {
            Err(SqlErrorM::Malformed(trim(sql)))
        } else {
            Ok(sts[0])
        },
    }
}

/// The path of the one query in a text.
#[verifier::opaque]
pub open spec fn single_plan(db: Seq<TableM>, sql: Seq<u8>) -> Result<QueryPathM, SqlErrorM> {
    match single_statement(sql) {
        Err(e) => Err(e),
        Ok(st) => plan_spec(db, st),
    }
}

/// Parses a text that must hold exactly one statement.
fn parse_single(sql: &[u8]) -> (r: Result<Statement, SqlError>)
    ensures
        match single_statement(sql@) {
            Ok(st) => r matches Ok(x) && x@ == st,
            Err(e) => r matches Err(x) && x@ == e,
        },
{
    let mut sts = parse_statements(sql)?;
    if sts.len() != 1 {
        return Err(SqlError::Malformed(trim_copy(sql)));
    }
    let st = sts.remove(0);
    Ok(st)
}

/// Opens the files for reading and writes the opened store back.
fn open_for_reading(files: &mut DatabaseFiles) -> (r: Result<Database, SqlError>)
    ensures
        files_after_open(
            file_view(old(files).data),
            file_view(old(files).wal),
            file_view(final(files).data),
            file_view(final(files).wal),
        ),
        match opened_db(file_view(old(files).data), file_view(old(files).wal)) {
            Err(e) => r matches Err(x) && x@ == e,
            Ok((_, d0)) => r matches Ok(db) && db@ == d0 && db_ok(db@),
        },
{
    let (store, db) = match open_database(files) {
        Ok(x) => x,
        Err(e) => {
            return Err(e);
        },
    };
    write_back(files, &store);
    Ok(db)
}

/// The path of the one query in `sql`.
pub fn plan_query_path_for_test(files: &mut DatabaseFiles, sql: &str) -> (r: Result<QueryPath, SqlError>)
    ensures
        files_after_open(
            file_view(old(files).data),
            file_view(old(files).wal),
            file_view(final(files).data),
            file_view(final(files).wal),
        ),
        match opened_db(file_view(old(files).data), file_view(old(files).wal)) {
            Err(e) => r matches Err(x) && x@ == e,
            Ok((_, d0)) => match single_plan(d0, sql.spec_bytes()) {
                Ok(q) => r matches Ok(x) && x@ == q,
                Err(e) => r matches Err(x) && x@ == e,
            },
        },
{
    proof {
        reveal(single_plan);
    }
    let db = open_for_reading(files)?;
    let st = parse_single(sql.as_bytes())?;
    plan_query_path(&db, &st)
}

/// The bytes of a text.
pub open spec fn text_bytes(s: String) -> Seq<u8> {
    vstd::utf8::encode_utf8(s@)
}

/// The paths of the queries in the texts, in order; the first error.
#[verifier::opaque]
pub open spec fn plans_spec(db: Seq<TableM>, texts: Seq<Seq<u8>>) -> Result<Seq<QueryPathM>, SqlErrorM>
    decreases texts.len(),
{
    if texts.len() == 0 {
        Ok(Seq::empty())
    } else {
        match plans_spec(db, texts.drop_last()) {
            Err(e) => Err(e),
            Ok(qs) => match single_plan(db, texts.last()) {
                Err(e) => Err(e),
                Ok(q) => Ok(qs.push(q)),
            },
        }
    }
}

/// Planning a list of query texts plans each on its own: where the list
/// plans, its `i`-th path is the path of the `i`-th text alone; where it
/// fails, some text fails alone with that error and every text before it
/// plans.
pub proof fn law_plans_are_single_plans(db: Seq<TableM>, texts: Seq<Seq<u8>>)
    ensures
        plans_spec(db, texts) matches Ok(qs) ==> qs.len() == texts.len() && forall|i: int|
            0 <= i < texts.len() ==> single_plan(db, #[trigger] texts[i]) == Ok::<QueryPathM, SqlErrorM>(qs[i]),
        plans_spec(db, texts) matches Err(e) ==> exists|k: int|
            0 <= k < texts.len() && #[trigger] single_plan(db, texts[k]) == Err::<QueryPathM, SqlErrorM>(e) && forall|i: int|
                0 <= i < k ==> single_plan(db, #[trigger] texts[i]) is Ok,
    decreases texts.len(),
{
    reveal(plans_spec);
    if texts.len() > 0 {
        let init = texts.drop_last();
        law_plans_are_single_plans(db, init);
        assert forall|i: int| 0 <= i < init.len() implies init[i] == texts[i] by {}
        match plans_spec(db, init) {
            Err(e) => {
                let k = choose|k: int|
                    0 <= k < init.len() && #[trigger] single_plan(db, init[k]) == Err::<QueryPathM, SqlErrorM>(e) && forall|i: int|
                        0 <= i < k ==> single_plan(db, #[trigger] init[i]) is Ok;
                assert(init[k] == texts[k]);
                assert forall|i: int| 0 <= i < k implies single_plan(db, #[trigger] texts[i]) is Ok by {
                    assert(init[i] == texts[i]);
                }
            },
            Ok(qs) => {
                match single_plan(db, texts.last()) {
                    Err(e) => {
                        let k = texts.len() - 1;
                        assert forall|i: int| 0 <= i < k implies single_plan(db, #[trigger] texts[i]) is Ok by {
                            assert(init[i] == texts[i]);
                        }
                    },
                    Ok(q) => {
                        assert forall|i: int| 0 <= i < texts.len() implies single_plan(db, #[trigger] texts[i])
                            == Ok::<QueryPathM, SqlErrorM>(qs.push(q)[i]) by {
                            if i < init.len() {
                                assert(init[i] == texts[i]);
                            }
                        }
                    },
                }
            },
        }
    }
}

pub open spec fn texts_view(v: Seq<String>) -> Seq<Seq<u8>> {
    v.map_values(|s: String| text_bytes(s))
}

pub open spec fn paths_view(v: Seq<QueryPath>) -> Seq<QueryPathM> {
    v.map_values(|q: QueryPath| q@)
}

proof fn lemma_plans_step(db: Seq<TableM>, texts: Seq<Seq<u8>>, k: int)
    requires
        0 <= k < texts.len(),
    ensures
        plans_spec(db, texts.subrange(0, k + 1)) == match plans_spec(db, texts.subrange(0, k)) {
            Err(e) => Err(e),
            Ok(qs) => match single_plan(db, texts[k]) {
                Err(e) => Err(e),
                Ok(q) => Ok(qs.push(q)),
            },
        },
{
    reveal(plans_spec);
    assert(texts.subrange(0, k + 1).drop_last() =~= texts.subrange(0, k));
}

proof fn lemma_plans_err_after(db: Seq<TableM>, texts: Seq<Seq<u8>>, k: int)
    requires
        0 <= k <= texts.len(),
        plans_spec(db, texts.subrange(0, k)) is Err,
    ensures
        plans_spec(db, texts) == plans_spec(db, texts.subrange(0, k)),
    decreases texts.len() - k,
{
    if k < texts.len() {
        lemma_plans_step(db, texts, k);
        lemma_plans_err_after(db, texts, k + 1);
    } else {
        assert(texts.subrange(0, k) =~= texts);
    }
}

/// The path of the one query in a text.
fn plan_text(db: &Database, text: &String) -> (r: Result<QueryPath, SqlError>)
    requires
        db_ok(db@),
    ensures
        match single_plan(db@, text_bytes(*text)) {
            Ok(q) => r matches Ok(x) && x@ == q,
            Err(e) => r matches Err(x) && x@ == e,
        },
{
    proof {
        reveal(single_plan);
    }
    let st = parse_single(text.as_str().as_bytes())?;
    plan_query_path(db, &st)
}

proof fn lemma_plans_empty(db: Seq<TableM>, texts: Seq<Seq<u8>>)
    ensures
        plans_spec(db, texts.subrange(0, 0)) == Ok::<Seq<QueryPathM>, SqlErrorM>(Seq::empty()),
{
    reveal(plans_spec);
}

/// The paths of the queries in the texts, in order.
fn plan_all(db: &Database, sql_texts: &[String]) -> (r: Result<Vec<QueryPath>, SqlError>)
    requires
        db_ok(db@),
    ensures
        match plans_spec(db@, texts_view(sql_texts@)) {
            Ok(qs) => r matches Ok(v) && paths_view(v@) == qs,
            Err(e) => r matches Err(x) && x@ == e,
        },
{
    let ghost tv = texts_view(sql_texts@);
    let mut paths: Vec<QueryPath> = Vec::new();
    let n = sql_texts.len();
    let mut k: usize = 0;
    assert(paths_view(paths@) =~= Seq::<QueryPathM>::empty());
    proof {
        lemma_plans_empty(db@, tv);
    }
    while k < n
        invariant
            n == sql_texts@.len(),
            tv == texts_view(sql_texts@),
            k <= n,
            db_ok(db@),
            plans_spec(db@, tv.subrange(0, k as int)) == Ok::<_, SqlErrorM>(paths_view(paths@)),
        decreases n - k,
    {
        proof {
            lemma_plans_step(db@, tv, k as int);
        }
        assert(tv[k as int] == text_bytes(sql_texts@[k as int]));
        let planned = plan_text(db, &sql_texts[k]);
        match planned {
            Ok(q) => {
                let ghost before = paths@;
                paths.push(q);
                assert(paths_view(paths@) =~= paths_view(before).push(q@));
            },
            Err(e) => {
                proof {
                    lemma_plans_err_after(db@, tv, k + 1);
                }
                return Err(e);
            },
        }
        k = k + 1;
    }
    assert(tv.subrange(0, n as int) =~= tv);
    Ok(paths)
}

/// The path of the one query in each text.
pub fn plan_selects_for_bench(files: &mut DatabaseFiles, sql_texts: &[String]) -> (r: Result<Vec<QueryPath>, SqlError>)
    ensures
        files_after_open(
            file_view(old(files).data),
            file_view(old(files).wal),
            file_view(final(files).data),
            file_view(final(files).wal),
        ),
        match opened_db(file_view(old(files).data), file_view(old(files).wal)) {
            Err(e) => r matches Err(x) && x@ == e,
            Ok((_, d0)) => match plans_spec(d0, texts_view(sql_texts@)) {
                Ok(qs) => r matches Ok(v) && paths_view(v@) == qs,
                Err(e) => r matches Err(x) && x@ == e,
            },
        },
{
    let db = open_for_reading(files)?;
    plan_all(&db, sql_texts)
}

/// What a query prints: the rows of a `SELECT`; any other statement is
/// not a supported query.
pub open spec fn select_text(db: Seq<TableM>, st: StatementM) -> Result<Seq<u8>, SqlErrorM> {
    match st {
        StatementM::SelectAll { table } => select_all_spec(db, table),
        StatementM::SelectWhere { table, column, predicate, raw } => select_where_spec(db, table, column, predicate, raw),
        _ => Err(SqlErrorM::Unsupported(Seq::empty())),
    }
}

/// A query run by the benchmark prints what running it as SQL text prints:
/// for a `SELECT`, the statements run from a database give that database
/// back with the query's text, or the query's error, and append nothing.
pub proof fn law_bench_select_is_execute_select(db: Seq<TableM>, st: StatementM, n: int)
    requires
        st is SelectAll || st is SelectWhere,
    ensures
        run_spec(db, seq![st], n) == (
            match select_text(db, st) {
                Ok(out) => Ok::<(Seq<TableM>, Seq<u8>), SqlErrorM>((db, out)),
                Err(e) => Err(e),
            },
            Seq::<Seq<u8>>::empty(),
        ),
{
    reveal(crate::run::step_spec);
    let sts = seq![st];
    assert(sts.drop_last() =~= Seq::<StatementM>::empty());
    assert(sts.last() == st);
    assert(run_spec(db, Seq::<StatementM>::empty(), n) == (
        Ok::<(Seq<TableM>, Seq<u8>), SqlErrorM>((db, Seq::<u8>::empty())),
        Seq::<Seq<u8>>::empty(),
    ));
    match select_text(db, st) {
        Ok(out) => {
            assert(Seq::<u8>::empty() + out =~= out);
        },
        Err(_) => {},
    }
    assert(Seq::<Seq<u8>>::empty() + Seq::<Seq<u8>>::empty() =~= Seq::<Seq<u8>>::empty());
}

/// Running a list of queries runs each on its own: where the list runs,
/// its `i`-th output is what the `i`-th query prints alone (and, by
/// `law_bench_select_is_execute_select`, what running it as SQL text
/// prints).
pub proof fn law_selects_are_single_selects(db: Seq<TableM>, sts: Seq<StatementM>)
    ensures
        selects_spec(db, sts) matches Ok(outs) ==> outs.len() == sts.len() && forall|i: int|
            0 <= i < sts.len() ==> select_text(db, #[trigger] sts[i]) == Ok::<Seq<u8>, SqlErrorM>(outs[i]),
    decreases sts.len(),
{
    reveal(selects_spec);
    if sts.len() > 0 {
        let init = sts.drop_last();
        law_selects_are_single_selects(db, init);
        if let Ok(outs) = selects_spec(db, sts) {
            assert(selects_spec(db, init) is Ok);
            let prev = selects_spec(db, init)->Ok_0;
            assert(select_text(db, sts.last()) is Ok);
            assert(outs == prev.push(select_text(db, sts.last())->Ok_0));
            assert forall|i: int| 0 <= i < sts.len() implies select_text(db, #[trigger] sts[i]) == Ok::<Seq<u8>, SqlErrorM>(
                outs[i],
            ) by {
                if i < init.len() {
                    assert(init[i] == sts[i]);
                    assert(outs[i] == prev[i]);
                }
            }
        }
    }
}

/// SQL text that does not parse runs none of its statements, not even
/// those before the one that fails: the answer is a malformed or
/// unsupported statement, and the files hold the records they held.
pub proof fn law_parse_error_runs_nothing(
    r: Result<Vec<u8>, SqlError>,
    data0: Option<Seq<u8>>,
    wal0: Option<Seq<u8>>,
    data1: Option<Seq<u8>>,
    wal1: Option<Seq<u8>>,
    sql: Seq<u8>,
)
    requires
        execute_post(r, data0, wal0, data1, wal1, sql),
        opened_records(data0, wal0) is Ok,
        replay_spec(opened_records(data0, wal0)->Ok_0) is Ok,
        statements_spec(sql) is Err,
    ensures
        r matches Err(x) && (x@ is Malformed || x@ is Unsupported),
        open_result(data1, wal1) == Ok::<Seq<Seq<u8>>, StorageError>(opened_records(data0, wal0)->Ok_0),
{
    crate::parser::lemma_statements_error_kind(sql);
}

/// The one statement of each text, in order; the first error.
#[verifier::opaque]
pub open spec fn parse_each(texts: Seq<Seq<u8>>) -> Result<Seq<StatementM>, SqlErrorM>
    decreases texts.len(),
{
    if texts.len() == 0 {
        Ok(Seq::empty())
    } else {
        match parse_each(texts.drop_last()) {
            Err(e) => Err(e),
            Ok(sts) => match single_statement(texts.last()) {
                Err(e) => Err(e),
                Ok(st) => Ok(sts.push(st)),
            },
        }
    }
}

/// What each query prints, in order; the first error.
#[verifier::opaque]
pub open spec fn selects_spec(db: Seq<TableM>, sts: Seq<StatementM>) -> Result<Seq<Seq<u8>>, SqlErrorM>
    decreases sts.len(),
{
    if sts.len() == 0 {
        Ok(Seq::empty())
    } else {
        match selects_spec(db, sts.drop_last()) {
            Err(e) => Err(e),
            Ok(outs) => match select_text(db, sts.last()) {
                Err(e) => Err(e),
                Ok(out) => Ok(outs.push(out)),
            },
        }
    }
}

proof fn lemma_parse_each_step(texts: Seq<Seq<u8>>, k: int)
    requires
        0 <= k < texts.len(),
    ensures
        parse_each(texts.subrange(0, 0)) == Ok::<Seq<StatementM>, SqlErrorM>(Seq::empty()),
        parse_each(texts.subrange(0, k + 1)) == match parse_each(texts.subrange(0, k)) {
            Err(e) => Err(e),
            Ok(sts) => match single_statement(texts[k]) {
                Err(e) => Err(e),
                Ok(st) => Ok(sts.push(st)),
            },
        },
{
    reveal(parse_each);
    assert(texts.subrange(0, k + 1).drop_last() =~= texts.subrange(0, k));
}

proof fn lemma_parse_each_err(texts: Seq<Seq<u8>>, k: int)
    requires
        0 <= k <= texts.len(),
        parse_each(texts.subrange(0, k)) is Err,
    ensures
        parse_each(texts) == parse_each(texts.subrange(0, k)),
    decreases texts.len() - k,
{
    if k < texts.len() {
        lemma_parse_each_step(texts, k);
        lemma_parse_each_err(texts, k + 1);
    } else {
        assert(texts.subrange(0, k) =~= texts);
    }
}

proof fn lemma_selects_step(db: Seq<TableM>, sts: Seq<StatementM>, k: int)
    requires
        0 <= k < sts.len(),
    ensures
        selects_spec(db, sts.subrange(0, 0)) == Ok::<Seq<Seq<u8>>, SqlErrorM>(Seq::empty()),
        selects_spec(db, sts.subrange(0, k + 1)) == match selects_spec(db, sts.subrange(0, k)) {
            Err(e) => Err(e),
            Ok(outs) => match select_text(db, sts[k]) {
                Err(e) => Err(e),
                Ok(out) => Ok(outs.push(out)),
            },
        },
{
    reveal(selects_spec);
    assert(sts.subrange(0, k + 1).drop_last() =~= sts.subrange(0, k));
}

proof fn lemma_selects_err(db: Seq<TableM>, sts: Seq<StatementM>, k: int)
    requires
        0 <= k <= sts.len(),
        selects_spec(db, sts.subrange(0, k)) is Err,
    ensures
        selects_spec(db, sts) == selects_spec(db, sts.subrange(0, k)),
    decreases sts.len() - k,
{
    if k < sts.len() {
        lemma_selects_step(db, sts, k);
        lemma_selects_err(db, sts, k + 1);
    } else {
        assert(sts.subrange(0, k) =~= sts);
    }
}

proof fn lemma_empty_lists(texts: Seq<Seq<u8>>, db: Seq<TableM>, sts: Seq<StatementM>)
    ensures
        parse_each(texts.subrange(0, 0)) == Ok::<Seq<StatementM>, SqlErrorM>(Seq::empty()),
        selects_spec(db, sts.subrange(0, 0)) == Ok::<Seq<Seq<u8>>, SqlErrorM>(Seq::empty()),
{
    reveal(parse_each);
    reveal(selects_spec);
}

fn parse_text(text: &String) -> (r: Result<Statement, SqlError>)
    ensures
        match single_statement(text_bytes(*text)) {
            Ok(st) => r matches Ok(x) && x@ == st,
            Err(e) => r matches Err(x) && x@ == e,
        },
{
    parse_single(text.as_str().as_bytes())
}

/// Parses each text, which must hold exactly one statement.
fn parse_all(sql_texts: &[String]) -> (r: Result<Vec<Statement>, SqlError>)
    ensures
        match parse_each(texts_view(sql_texts@)) {
            Ok(sts) => r matches Ok(v) && statements_view(v@) == sts,
            Err(e) => r matches Err(x) && x@ == e,
        },
{
    let ghost tv = texts_view(sql_texts@);
    let mut out: Vec<Statement> = Vec::new();
    let n = sql_texts.len();
    let mut k: usize = 0;
    assert(statements_view(out@) =~= Seq::<StatementM>::empty());
    proof {
        lemma_empty_lists(tv, Seq::empty(), Seq::empty());
    }
    while k < n
        invariant
            n == sql_texts@.len(),
            tv == texts_view(sql_texts@),
            k <= n,
            parse_each(tv.subrange(0, k as int)) == Ok::<_, SqlErrorM>(statements_view(out@)),
        decreases n - k,
    {
        proof {
            lemma_parse_each_step(tv, k as int);
        }
        assert(tv[k as int] == text_bytes(sql_texts@[k as int]));
        match parse_text(&sql_texts[k]) {
            Ok(st) => {
                let ghost before = out@;
                out.push(st);
                assert(statements_view(out@) =~= statements_view(before).push(st@));
            },
            Err(e) => {
                proof {
                    lemma_parse_each_err(tv, k + 1);
                }
                return Err(e);
            },
        }
        k = k + 1;
    }
    assert(tv.subrange(0, n as int) =~= tv);
    Ok(out)
}

fn select_one(db: &Database, st: &Statement) -> (r: Result<Vec<u8>, SqlError>)
    requires
        db_ok(db@),
    ensures
        match select_text(db@, st@) {
            Ok(t) => r matches Ok(o) && o@ == t,
            Err(e) => r matches Err(x) && x@ == e,
        },
{
    let mut out: Vec<u8> = Vec::new();
    let res = match st {
        Statement::SelectAll { table } => execute_select(db, table.as_slice(), &mut out),
        Statement::SelectWhere { table, column, predicate, raw } => execute_select_where(
            db,
            table.as_slice(),
            column.as_slice(),
            *predicate,
            raw.as_slice(),
            &mut out,
        ),
        _ => {
            let empty: Vec<u8> = Vec::new();
            assert(empty@ =~= Seq::<u8>::empty());
            return Err(SqlError::Unsupported(empty));
        },
    };
    match res {
        Ok(()) => {
            assert(out@ =~= Seq::<u8>::empty() + out@);
            Ok(out)
        },
        Err(e) => Err(e),
    }
}

pub open spec fn outputs_view(v: Seq<Vec<u8>>) -> Seq<Seq<u8>> {
    v.map_values(|o: Vec<u8>| o@)
}

/// Runs a batch of queries on a database: what each prints.
pub fn run_select_batch_for_bench(db: &Database, batch: &Vec<Statement>) -> (r: Result<Vec<Vec<u8>>, SqlError>)
    requires
        db_ok(db@),
    ensures
        match selects_spec(db@, statements_view(batch@)) {
            Ok(outs) => r matches Ok(v) && outputs_view(v@) == outs,
            Err(e) => r matches Err(x) && x@ == e,
        },
{
    let ghost sv = statements_view(batch@);
    let mut outs: Vec<Vec<u8>> = Vec::new();
    let n = batch.len();
    let mut k: usize = 0;
    assert(outputs_view(outs@) =~= Seq::<Seq<u8>>::empty());
    proof {
        lemma_empty_lists(Seq::empty(), db@, sv);
    }
    while k < n
        invariant
            n == batch@.len(),
            sv == statements_view(batch@),
            k <= n,
            db_ok(db@),
            selects_spec(db@, sv.subrange(0, k as int)) == Ok::<_, SqlErrorM>(outputs_view(outs@)),
        decreases n - k,
    {
        proof {
            lemma_selects_step(db@, sv, k as int);
        }
        assert(sv[k as int] == batch@[k as int]@);
        match select_one(db, &batch[k]) {
            Ok(o) => {
                let ghost before = outs@;
                outs.push(o);
                assert(outputs_view(outs@) =~= outputs_view(before).push(o@));
            },
            Err(e) => {
                proof {
                    lemma_selects_err(db@, sv, k + 1);
                }
                return Err(e);
            },
        }
        k = k + 1;
    }
    assert(sv.subrange(0, n as int) =~= sv);
    Ok(outs)
}

/// Parses every text, each of one query, then
/// runs them in order; what each prints.
pub fn execute_selects_for_bench(files: &mut DatabaseFiles, sql_texts: &[String]) -> (r: Result<Vec<Vec<u8>>, SqlError>)
    ensures
        files_after_open(
            file_view(old(files).data),
            file_view(old(files).wal),
            file_view(final(files).data),
            file_view(final(files).wal),
        ),
        match opened_db(file_view(old(files).data), file_view(old(files).wal)) {
            Err(e) => r matches Err(x) && x@ == e,
            Ok((_, d0)) => match parse_each(texts_view(sql_texts@)) {
                Err(e) => r matches Err(x) && x@ == e,
                Ok(sts) => match selects_spec(d0, sts) {
                    Ok(outs) => r matches Ok(v) && outputs_view(v@) == outs,
                    Err(e) => r matches Err(x) && x@ == e,
                },
            },
        },
{
    let db = open_for_reading(files)?;
    let sts = parse_all(sql_texts)?;
    run_select_batch_for_bench(&db, &sts)
}

pub open spec fn batches_view(v: Seq<Vec<String>>) -> Seq<Seq<Seq<u8>>> {
    v.map_values(|b: Vec<String>| texts_view(b@))
}

/// Parses every batch of query texts: the statements of each batch.
fn parse_batches(batches: &[Vec<String>]) -> (r: Result<Vec<Vec<Statement>>, SqlError>)
    ensures
        ({
            let bv = batches_view(batches@);
            match first_batch_error(bv) {
                Some(e) => r matches Err(x) && x@ == e,
                None => r matches Ok(parsed) && parsed@.len() == bv.len() && forall|b: int|
                    0 <= b < bv.len() ==> parse_each(#[trigger] bv[b]) == Ok::<_, SqlErrorM>(statements_view(parsed@[b]@)),
            }
        }),
{
    let ghost bv = batches_view(batches@);
    let mut parsed: Vec<Vec<Statement>> = Vec::new();
    let n = batches.len();
    let mut k: usize = 0;
    proof {
        lemma_batch_none(bv);
    }
    while k < n
        invariant
            n == batches@.len(),
            bv == batches_view(batches@),
            k <= n,
            parsed@.len() == k,
            first_batch_error(bv.subrange(0, k as int)) is None,
            forall|b: int| 0 <= b < k ==> parse_each(#[trigger] bv[b]) == Ok::<_, SqlErrorM>(statements_view(parsed@[b]@)),
        decreases n - k,
    {
        proof {
            lemma_batch_step(bv, k as int);
        }
        let ghost tk = texts_view(batches@[k as int]@);
        assert(bv[k as int] == tk);
        let one = parse_all(batches[k].as_slice());
        match one {
            Ok(sts) => {
                let ghost sv = statements_view(sts@);
                assert(parse_each(tk) == Ok::<_, SqlErrorM>(sv));
                let ghost before = parsed@;
                parsed.push(sts);
                assert forall|b: int| 0 <= b < k + 1 implies parse_each(#[trigger] bv[b]) == Ok::<_, SqlErrorM>(
                    statements_view(parsed@[b]@),
                ) by {
                    if b < k {
                        assert(parsed@[b] == before[b]);
                    }
                }
            },
            Err(e) => {
                proof {
                    lemma_batch_error_after(bv, k + 1);
                }
                return Err(e);
            },
        }
        k = k + 1;
    }
    assert(bv.subrange(0, n as int) =~= bv);
    Ok(parsed)
}

/// Opens the files and parses every batch of query texts before any runs:
/// the database and the statements of each batch.
pub fn prepare_select_batches_for_bench(files: &mut DatabaseFiles, batches: &[Vec<String>]) -> (r: Result<
    (Database, Vec<Vec<Statement>>),
    SqlError,
>)
    ensures
        files_after_open(
            file_view(old(files).data),
            file_view(old(files).wal),
            file_view(final(files).data),
            file_view(final(files).wal),
        ),
        match opened_db(file_view(old(files).data), file_view(old(files).wal)) {
            Err(e) => r matches Err(x) && x@ == e,
            Ok((_, d0)) => {
                let bv = batches_view(batches@);
                match first_batch_error(bv) {
                    Some(e) => r matches Err(x) && x@ == e,
                    None => r matches Ok((db, parsed)) && db@ == d0 && db_ok(db@) && parsed@.len() == bv.len()
                        && forall|b: int| 0 <= b < bv.len() ==> parse_each(#[trigger] bv[b]) == Ok::<_, SqlErrorM>(
                            statements_view(parsed@[b]@),
                        ),
                }
            },
        },
{
    let db = open_for_reading(files)?;
    let parsed = parse_batches(batches)?;
    Ok((db, parsed))
}

/// The first parse error among the batches.
#[verifier::opaque]
pub open spec fn first_batch_error(bv: Seq<Seq<Seq<u8>>>) -> Option<SqlErrorM>
    decreases bv.len(),
{
    if bv.len() == 0 {
        None
    } else {
        match first_batch_error(bv.drop_last()) {
            Some(e) => Some(e),
            None => match parse_each(bv.last()) {
                Err(e) => Some(e),
                Ok(_) => None,
            },
        }
    }
}

proof fn lemma_batch_step(bv: Seq<Seq<Seq<u8>>>, k: int)
    requires
        0 <= k < bv.len(),
    ensures
        first_batch_error(bv.subrange(0, 0)) is None,
        first_batch_error(bv.subrange(0, k + 1)) == match first_batch_error(bv.subrange(0, k)) {
            Some(e) => Some(e),
            None => match parse_each(bv[k]) {
                Err(e) => Some(e),
                Ok(_) => None,
            },
        },
{
    reveal(first_batch_error);
    assert(bv.subrange(0, k + 1).drop_last() =~= bv.subrange(0, k));
}

proof fn lemma_batch_none(bv: Seq<Seq<Seq<u8>>>)
    ensures
        first_batch_error(bv.subrange(0, 0)) is None,
{
    reveal(first_batch_error);
}

proof fn lemma_batch_error_after(bv: Seq<Seq<Seq<u8>>>, k: int)
    requires
        0 <= k <= bv.len(),
        first_batch_error(bv.subrange(0, k)) is Some,
    ensures
        first_batch_error(bv) == first_batch_error(bv.subrange(0, k)),
    decreases bv.len() - k,
{
    if k < bv.len() {
        lemma_batch_step(bv, k);
        lemma_batch_error_after(bv, k + 1);
    } else {
        assert(bv.subrange(0, k) =~= bv);
    }
}

/// Whether the records describe a database,
/// or the name of the invariant they break.
pub fn validate_records_for_check(records: Vec<Vec<u8>>) -> (r: Result<(), &'static str>)
    ensures
        match replay_spec(rec_view(records@)) {
            Ok(_) => r is Ok,
            Err(l) => r matches Err(s) && s@ == crate::replay::label_text(l),
        },
{
    match Database::from_records_with_check_label(records) {
        Ok(_) => Ok(()),
        Err(s) => Err(s),
    }
}

/// The benchmark table: `id INT PRIMARY KEY, group_key INT, payload TEXT`.
pub open spec fn bench_columns() -> Seq<ColumnM> {
    seq![
        ColumnM { name: "id".spec_bytes(), column_type: ColumnType::Int, is_primary_key: true },
        ColumnM { name: "group_key".spec_bytes(), column_type: ColumnType::Int, is_primary_key: false },
        ColumnM { name: "payload".spec_bytes(), column_type: ColumnType::Text, is_primary_key: false },
    ]
}

/// The record of one benchmark row in slot `p`, with its entry in the
/// `group_key` index.
#[verifier::opaque]
pub open spec fn bench_row_record(row: (i64, i64, String), index: Seq<u8>, p: int) -> Seq<u8> {
    encode_record(
        RecordM::IndexedRow {
            table: "bench_items".spec_bytes(),
            values: seq![ValueM::Int(row.0), ValueM::Int(row.1), ValueM::Text(text_bytes(row.2))],
            entries: seq![EntryM { build_id: 1, index_name: index, indexed_key: row.1, tie_break: row.0, row_position: p as u64 }],
        },
    )
}

/// The records of the benchmark database: its table, its `group_key`
/// index, then one record per row.
pub open spec fn fixture_records(rows: Seq<(i64, i64, String)>, index: Seq<u8>) -> Seq<Seq<u8>> {
    fixture_head(index) + rows.map(|p: int, row: (i64, i64, String)| bench_row_record(row, index, p))
}

/// The records of the benchmark table and of its `group_key` index.
#[verifier::opaque]
pub open spec fn fixture_head(index: Seq<u8>) -> Seq<Seq<u8>> {
    seq![
        encode_record(RecordM::Catalog { table: "bench_items".spec_bytes(), columns: bench_columns() }),
        encode_record(
            RecordM::Metadata {
                build_id: 1,
                index_name: index,
                table_name: "bench_items".spec_bytes(),
                indexed_column: 1,
                tie_break_mode: TieBreakMode::PrimaryKey,
            },
        ),
    ]
}

/// The records a fixture opens with: the store file's (no check of what
/// they hold) and the log's.
pub open spec fn fixture_open(data: Option<Seq<u8>>, wal: Option<Seq<u8>>) -> Result<Seq<Seq<u8>>, StorageError> {
    let d = present(data);
    if !fits_machine(d, wal) {
        Err(StorageError::Io)
    } else {
        open_result(d, wal)
    }
}

/// Appending `ps` to the store that held `s0` left `s1` and answered `r`;
/// `room` says whether the store left could take another record.
pub open spec fn appended_holds(r: Result<(), SqlError>, s0: Seq<Seq<u8>>, s1: Seq<Seq<u8>>, ps: Seq<Seq<u8>>, room: bool) -> bool {
    out_of_room(r, s0, s1, appendable(ps), room) || match too_large_from(ps, 0) {
        Some(k) => r matches Err(x) && x@ == SqlErrorM::Storage(StorageError::RecordTooLarge) && s1 == s0 + ps.subrange(0, k),
        None => r is Ok && s1 == s0 + ps,
    }
}

fn bench_column(name: &str, column_type: ColumnType, is_primary_key: bool) -> (c: Column)
    ensures
        c@ == (ColumnM { name: name.spec_bytes(), column_type, is_primary_key }),
{
    Column { name: copy_vec_of(name.as_bytes()), column_type, is_primary_key }
}

fn copy_vec_of(b: &[u8]) -> (r: Vec<u8>)
    ensures
        r@ == b@,
{
    let r = crate::bytes::copy_range(b, 0, b.len());
    assert(b@.subrange(0, b@.len() as int) =~= b@);
    r
}

/// The records of the benchmark table and its index.
fn bench_head_records(index_name: &[u8]) -> (ps: Vec<Vec<u8>>)
    ensures
        ps@.map_values(|p: Vec<u8>| p@) == fixture_head(index_name@),
{
    proof {
        reveal(fixture_head);
    }
    let mut columns: Vec<Column> = Vec::new();
    columns.push(bench_column("id", ColumnType::Int, true));
    columns.push(bench_column("group_key", ColumnType::Int, false));
    columns.push(bench_column("payload", ColumnType::Text, false));
    assert(crate::record::columns_view(columns@) =~= bench_columns());
    let table = "bench_items".as_bytes();
    let catalog = crate::record::encode_catalog_record(table, columns.as_slice());
    let meta = crate::record::encode_secondary_metadata_record(1, index_name, table, 1, TieBreakMode::PrimaryKey);
    let mut ps: Vec<Vec<u8>> = Vec::new();
    ps.push(catalog);
    ps.push(meta);
    assert(ps@.map_values(|p: Vec<u8>| p@) =~= seq![catalog@, meta@]);
    ps
}

/// The record of one benchmark row.
fn bench_row(row: &(i64, i64, String), index_name: &[u8], p: usize) -> (r: Vec<u8>)
    ensures
        r@ == bench_row_record(*row, index_name@, p as int),
{
    proof {
        reveal(bench_row_record);
    }
    let mut values: Vec<Value> = Vec::new();
    values.push(Value::Int(row.0));
    values.push(Value::Int(row.1));
    values.push(Value::Text(copy_vec_of(row.2.as_str().as_bytes())));
    assert(crate::record::values_view(values@) =~= seq![ValueM::Int(row.0), ValueM::Int(row.1), ValueM::Text(text_bytes(row.2))]);
    let entry = EmbeddedIndexEntry {
        build_id: 1,
        index_name_key: crate::text::to_ascii_lowercase(index_name),
        index_name: copy_vec_of(index_name),
        indexed_key: row.1,
        tie_break: row.0,
        row_position: p as u64,
    };
    let mut entries: Vec<EmbeddedIndexEntry> = Vec::new();
    entries.push(entry);
    assert(crate::record::entries_view(entries@) =~= seq![
        EntryM { build_id: 1, index_name: index_name@, indexed_key: row.1, tie_break: row.0, row_position: p as u64 },
    ]);
    crate::record::encode_indexed_row_record("bench_items".as_bytes(), values.as_slice(), entries.as_slice())
}

/// The records of the benchmark rows.
fn bench_row_records(rows: &[(i64, i64, String)], index_name: &[u8]) -> (ps: Vec<Vec<u8>>)
    ensures
        ps@.map_values(|p: Vec<u8>| p@) == rows@.map(|p: int, row: (i64, i64, String)| bench_row_record(row, index_name@, p)),
{
    let ghost want = rows@.map(|p: int, row: (i64, i64, String)| bench_row_record(row, index_name@, p));
    let mut ps: Vec<Vec<u8>> = Vec::new();
    let n = rows.len();
    let mut k: usize = 0;
    while k < n
        invariant
            n == rows@.len(),
            want == rows@.map(|p: int, row: (i64, i64, String)| bench_row_record(row, index_name@, p)),
            k <= n,
            ps@.map_values(|p: Vec<u8>| p@) == want.subrange(0, k as int),
        decreases n - k,
    {
        let r = bench_row(&rows[k], index_name, k);
        let ghost before = ps@;
        ps.push(r);
        assert(want[k as int] == bench_row_record(rows@[k as int], index_name@, k as int));
        assert(ps@.map_values(|p: Vec<u8>| p@) =~= before.map_values(|p: Vec<u8>| p@).push(r@));
        assert(want.subrange(0, k + 1) =~= want.subrange(0, k as int).push(want[k as int]));
        assert(ps@.map_values(|p: Vec<u8>| p@) =~= want.subrange(0, k + 1));
        k = k + 1;
    }
    assert(want.subrange(0, n as int) =~= want);
    ps
}

/// Opens a store without checking what its records hold.
fn open_fixture_store(files: &mut DatabaseFiles) -> (r: Result<PageStore, SqlError>)
    ensures
        match fixture_open(file_view(old(files).data), file_view(old(files).wal)) {
            Err(e) => r matches Err(x) && x@ == SqlErrorM::Storage(e) && file_view(final(files).data) == present(
                file_view(old(files).data),
            ) && file_view(final(files).wal) == file_view(old(files).wal),
            Ok(s0) => r matches Ok(store) && store.wf() && store.records() == s0,
        },
{
    drop_empty_data(files);
    if !files_fit(files) {
        return Err(SqlError::Storage(StorageError::Io));
    }
    let data = copy_file(&files.data);
    let wal = copy_file(&files.wal);
    match PageStore::open(data, wal) {
        Ok(s) => Ok(s),
        Err(e) => Err(SqlError::Storage(e)),
    }
}

/// Writes the benchmark table, its
/// `group_key` index and the rows, each row with its index entry.
pub fn create_section14_fixture_for_bench(files: &mut DatabaseFiles, rows: &[(i64, i64, String)], index_name: &str) -> (r: Result<
    (),
    SqlError,
>)
    ensures
        match fixture_open(file_view(old(files).data), file_view(old(files).wal)) {
            Err(e) => r matches Err(x) && x@ == SqlErrorM::Storage(e) && file_view(final(files).data) == present(
                file_view(old(files).data),
            ) && file_view(final(files).wal) == file_view(old(files).wal),
            Ok(s0) => exists|s1: Seq<Seq<u8>>|
                store_files(file_view(final(files).data), file_view(final(files).wal), s1) && appended_holds(
                    r,
                    s0,
                    s1,
                    fixture_records(rows@, index_name.spec_bytes()),
                    room_for_record(file_view(final(files).data)->Some_0, file_view(final(files).wal), s1.len() as int),
                ),
        },
{
    let mut store = match open_fixture_store(files) {
        Ok(s) => s,
        Err(e) => {
            return Err(e);
        },
    };
    let ghost s0 = store.records();
    let name = index_name.as_bytes();
    let mut ps = bench_head_records(name);
    let mut more = bench_row_records(rows, name);
    let ghost a = ps@.map_values(|p: Vec<u8>| p@);
    let ghost b = more@.map_values(|p: Vec<u8>| p@);
    ps.append(&mut more);
    assert(ps@.map_values(|p: Vec<u8>| p@) =~= a + b);
    assert(ps@.map_values(|p: Vec<u8>| p@) =~= fixture_records(rows@, index_name.spec_bytes()));
    let res = append_all(&mut store, &ps);
    write_back(files, &store);
    assert(store_files(file_view(files.data), file_view(files.wal), store.records()));
    proof {
        store.lemma_append_fits();
    }
    assert(appended_holds(res, s0, store.records(), fixture_records(rows@, index_name.spec_bytes()), store.append_fits()));
    res
}

/// The contents of a file; no file reads as empty.
pub open spec fn or_empty(f: Option<Seq<u8>>) -> Seq<u8> {
    match f {
        Some(x) => x,
        None => Seq::empty(),
    }
}

/// The log after committed frames for the first `k` benchmark rows, the
/// row in slot `i` claiming `2 + i` records before it, with frame ids
/// following the `f0` frames already in `w0`.
pub open spec fn wal_with_rows(w0: Seq<u8>, f0: int, rows: Seq<(i64, i64, String)>, index: Seq<u8>, k: int) -> Seq<u8>
    decreases k,
{
    if k <= 0 {
        w0
    } else {
        wal_with_rows(w0, f0, rows, index, k - 1) + crate::wal::frame_bytes(
            f0 + k,
            2 + (k - 1),
            bench_row_record(rows[k - 1], index, k - 1),
        )
    }
}

/// How writing the rows' frames to the log `w0` ended: all written; or
/// the first `k` written, then a row too large for a page or a log too
/// large for the machine.
pub open spec fn recovery_rows_hold(
    r: Result<(), SqlError>,
    w0: Seq<u8>,
    f0: int,
    rows: Seq<(i64, i64, String)>,
    index: Seq<u8>,
    w1: Option<Seq<u8>>,
) -> bool {
    exists|k: int|
        0 <= k <= rows.len() && or_empty(w1) == wal_with_rows(w0, f0, rows, index, k) && (if k == rows.len() {
            &&& r is Ok
            &&& f0 + rows.len() <= u64::MAX
            &&& forall|j: int|
                0 <= j < rows.len() ==> (#[trigger] bench_row_record(rows[j], index, j)).len()
                    <= crate::page::MAX_RECORD_PAYLOAD_LEN
        } else if bench_row_record(rows[k], index, k).len() > crate::page::MAX_RECORD_PAYLOAD_LEN {
            r matches Err(x) && x@ == SqlErrorM::Storage(StorageError::RecordTooLarge)
        } else {
            r matches Err(x) && x@ == SqlErrorM::Storage(StorageError::Io) && !log_room(or_empty(w1))
        })
}

/// Whether a log of these bytes can take another frame of at most one page.
pub open spec fn log_room(w: Seq<u8>) -> bool {
    w.len() + 36 + crate::page::MAX_RECORD_PAYLOAD_LEN <= usize::MAX && count_frames(w, 0).0 < u64::MAX
}

/// Files whose store file holds the records `s1` and whose log holds only
/// frames already in the store file.
pub open spec fn settled_files(data: Option<Seq<u8>>, wal: Option<Seq<u8>>, s1: Seq<Seq<u8>>) -> bool {
    &&& data is Some
    &&& file_check(data->Some_0) == Ok::<Seq<Seq<u8>>, StorageError>(s1)
    &&& wal_scan(or_empty(wal), 0, s1.len() as int) == Ok::<(Seq<Seq<u8>>, int), StorageError>(
        (Seq::empty(), or_empty(wal).len() as int),
    )
}

/// How the log-recovery fixture ends: the store holds the table and index
/// records the append `rh` gave; if they all went in, the log then holds
/// committed frames for the rows, else the append's error is the answer.
#[verifier::opaque]
pub open spec fn recovery_fixture_holds(
    r: Result<(), SqlError>,
    s0: Seq<Seq<u8>>,
    data1: Option<Seq<u8>>,
    wal1: Option<Seq<u8>>,
    rows: Seq<(i64, i64, String)>,
    index: Seq<u8>,
) -> bool {
    exists|s1: Seq<Seq<u8>>, w: Option<Seq<u8>>, rh: Result<(), SqlError>|
        #![trigger store_files(data1, w, s1), appended_holds(rh, s0, s1, fixture_head(index), room_for_record(data1->Some_0, w, s1.len() as int))]
        {
            &&& store_files(data1, w, s1)
            &&& settled_files(data1, w, s1)
            &&& appended_holds(rh, s0, s1, fixture_head(index), room_for_record(data1->Some_0, w, s1.len() as int))
            &&& match rh {
                Err(e) => r matches Err(x) && x@ == e@ && wal1 == w,
                Ok(()) => recovery_rows_hold(r, or_empty(w), count_frames(or_empty(w), 0).0, rows, index, wal1),
            }
        }
}

proof fn lemma_recovery_fixture(
    r: Result<(), SqlError>,
    s0: Seq<Seq<u8>>,
    s1: Seq<Seq<u8>>,
    w: Option<Seq<u8>>,
    rh: Result<(), SqlError>,
    data1: Option<Seq<u8>>,
    wal1: Option<Seq<u8>>,
    rows: Seq<(i64, i64, String)>,
    index: Seq<u8>,
)
    requires
        store_files(data1, w, s1),
        settled_files(data1, w, s1),
        appended_holds(rh, s0, s1, fixture_head(index), room_for_record(data1->Some_0, w, s1.len() as int)),
        match rh {
            Err(e) => r matches Err(x) && x@ == e@ && wal1 == w,
            Ok(()) => recovery_rows_hold(r, or_empty(w), count_frames(or_empty(w), 0).0, rows, index, wal1),
        },
    ensures
        recovery_fixture_holds(r, s0, data1, wal1, rows, index),
{
    reveal(recovery_fixture_holds);
}

/// The records of the benchmark rows, in order.
pub open spec fn row_records(rows: Seq<(i64, i64, String)>, index: Seq<u8>) -> Seq<Seq<u8>> {
    rows.map(|p: int, row: (i64, i64, String)| bench_row_record(row, index, p))
}

proof fn lemma_rows_log_grows(w0: Seq<u8>, f0: int, rows: Seq<(i64, i64, String)>, index: Seq<u8>, j: int, k: int)
    requires
        0 <= j <= k,
    ensures
        wal_with_rows(w0, f0, rows, index, j).len() <= wal_with_rows(w0, f0, rows, index, k).len(),
    decreases k - j,
{
    if j < k {
        lemma_rows_log_grows(w0, f0, rows, index, j, k - 1);
    }
}

/// Replaying the log of the rows' frames, after a log that holds only
/// frames already in a store of the two records of the table and its
/// index, gives the rows' records.
proof fn lemma_rows_replay(w0: Seq<u8>, f0: int, rows: Seq<(i64, i64, String)>, index: Seq<u8>, k: int)
    requires
        0 <= k <= rows.len(),
        rows.len() + 2 <= u64::MAX,
        0 <= f0,
        f0 + rows.len() <= u64::MAX,
        wal_scan(w0, 0, 2) == Ok::<(Seq<Seq<u8>>, int), StorageError>((Seq::empty(), w0.len() as int)),
        forall|j: int|
            0 <= j < rows.len() ==> (#[trigger] bench_row_record(rows[j], index, j)).len() <= crate::page::MAX_RECORD_PAYLOAD_LEN,
        wal_with_rows(w0, f0, rows, index, rows.len() as int).len() <= usize::MAX,
    ensures
        wal_scan(wal_with_rows(w0, f0, rows, index, k), 0, 2) == Ok::<(Seq<Seq<u8>>, int), StorageError>(
            (row_records(rows, index).subrange(0, k), wal_with_rows(w0, f0, rows, index, k).len() as int),
        ),
    decreases k,
{
    if k == 0 {
        assert(row_records(rows, index).subrange(0, 0) =~= Seq::<Seq<u8>>::empty());
    } else {
        lemma_rows_replay(w0, f0, rows, index, k - 1);
        let prev = wal_with_rows(w0, f0, rows, index, k - 1);
        let payload = bench_row_record(rows[k - 1], index, k - 1);
        lemma_rows_log_grows(w0, f0, rows, index, k, rows.len() as int);
        crate::wal::lemma_frame_fields(f0 + k, 2 + (k - 1), payload);
        crate::wal::lemma_scan_next_frame(prev, 2, f0 + k, payload);
        assert(row_records(rows, index).subrange(0, k - 1).push(payload) =~= row_records(rows, index).subrange(0, k));
    }
}

/// The log-recovery fixture reopens to the records the direct fixture
/// writes: the table and its index from the store file, then every row
/// replayed from its committed log frame. Stated for a fixture written to
/// fresh files, with a log that fits the machine's address space.
pub proof fn law_recovery_fixture_reopens_as_direct(
    data1: Option<Seq<u8>>,
    wal1: Option<Seq<u8>>,
    rows: Seq<(i64, i64, String)>,
    index: Seq<u8>,
)
    requires
        rows.len() + 2 <= u64::MAX,
        recovery_fixture_holds(Ok(()), Seq::empty(), data1, wal1, rows, index),
        or_empty(wal1).len() <= usize::MAX,
    ensures
        open_result(data1, wal1) == Ok::<Seq<Seq<u8>>, StorageError>(fixture_records(rows, index)),
{
    reveal(recovery_fixture_holds);
    reveal(fixture_head);
    let (s1, w, rh) = choose|s1: Seq<Seq<u8>>, w: Option<Seq<u8>>, rh: Result<(), SqlError>| {
        &&& store_files(data1, w, s1)
        &&& settled_files(data1, w, s1)
        &&& appended_holds(rh, Seq::empty(), s1, fixture_head(index), room_for_record(data1->Some_0, w, s1.len() as int))
        &&& match rh {
            Err(e) => Ok::<(), SqlError>(()) matches Err(x) && x@ == e@ && wal1 == w,
            Ok(()) => recovery_rows_hold(Ok(()), or_empty(w), count_frames(or_empty(w), 0).0, rows, index, wal1),
        }
    };
    assert(rh is Ok);
    assert(too_large_from(fixture_head(index), 0) is None);
    assert(s1 =~= fixture_head(index));
    let w0 = or_empty(w);
    let f0 = count_frames(w0, 0).0;
    let k = choose|k: int|
        0 <= k <= rows.len() && or_empty(wal1) == wal_with_rows(w0, f0, rows, index, k) && (if k == rows.len() {
            &&& Ok::<(), SqlError>(()) is Ok
            &&& f0 + rows.len() <= u64::MAX
            &&& forall|j: int|
                0 <= j < rows.len() ==> (#[trigger] bench_row_record(rows[j], index, j)).len()
                    <= crate::page::MAX_RECORD_PAYLOAD_LEN
        } else if bench_row_record(rows[k], index, k).len() > crate::page::MAX_RECORD_PAYLOAD_LEN {
            Ok::<(), SqlError>(()) matches Err(x) && x@ == SqlErrorM::Storage(StorageError::RecordTooLarge)
        } else {
            Ok::<(), SqlError>(()) matches Err(x) && x@ == SqlErrorM::Storage(StorageError::Io) && !log_room(or_empty(wal1))
        });
    assert(k == rows.len());
    assert(0 <= f0) by {
        crate::wal::lemma_count_frames_nonneg(w0, 0);
    }
    lemma_rows_replay(w0, f0, rows, index, rows.len() as int);
    assert(row_records(rows, index).subrange(0, rows.len() as int) =~= row_records(rows, index));
    match wal1 {
        Some(x) => {
            assert(fixture_records(rows, index) == s1 + row_records(rows, index));
        },
        None => {
            if rows.len() > 0 {
                let n = rows.len() as int;
                crate::wal::lemma_frame_fields(f0 + n, 2 + (n - 1), bench_row_record(rows[n - 1], index, n - 1));
                assert(wal_with_rows(w0, f0, rows, index, n).len() > 0);
            }
            assert(row_records(rows, index) =~= Seq::<Seq<u8>>::empty());
            assert(fixture_records(rows, index) =~= s1);
        },
    }
}

/// Writes a committed log frame for each benchmark row.
fn append_row_frames(
    wal: &mut Option<Vec<u8>>,
    payloads: &Vec<Vec<u8>>,
    rows: &[(i64, i64, String)],
    name: &[u8],
    Ghost(w0): Ghost<Seq<u8>>,
    Ghost(f0): Ghost<int>,
) -> (r: Result<(), SqlError>)
    requires
        rows@.len() + 2 <= u64::MAX,
        payloads@.map_values(|p: Vec<u8>| p@) == rows@.map(|p: int, row: (i64, i64, String)| bench_row_record(row, name@, p)),
        or_empty(file_view(*old(wal))) == w0,
        count_frames(w0, 0) == (f0, w0.len() as int),
        f0 <= u64::MAX,
    ensures
        recovery_rows_hold(r, w0, f0, rows@, name@, file_view(*final(wal))),
{
    let n = rows.len();
    assert(payloads@.len() == payloads@.map_values(|p: Vec<u8>| p@).len());
    let mut k: usize = 0;
    while k < n
        invariant
            n == rows@.len(),
            n + 2 <= u64::MAX,
            k <= n,
            payloads@.len() == n,
            payloads@.map_values(|p: Vec<u8>| p@) == rows@.map(|p: int, row: (i64, i64, String)| bench_row_record(row, name@, p)),
            or_empty(file_view(*wal)) == wal_with_rows(w0, f0, rows@, name@, k as int),
            count_frames(wal_with_rows(w0, f0, rows@, name@, k as int), 0) == (
                f0 + k,
                wal_with_rows(w0, f0, rows@, name@, k as int).len() as int,
            ),
            f0 + k <= u64::MAX,
            forall|j: int|
                0 <= j < k ==> (#[trigger] bench_row_record(rows@[j], name@, j)).len() <= crate::page::MAX_RECORD_PAYLOAD_LEN,
        decreases n - k,
    {
        let ghost wk = wal_with_rows(w0, f0, rows@, name@, k as int);
        assert(payloads@.map_values(|p: Vec<u8>| p@)[k as int] == payloads@[k as int]@);
        assert(payloads@[k as int]@ == bench_row_record(rows@[k as int], name@, k as int));
        match crate::storage::append_committed_wal_record_for_bench(wal, 2 + k as u64, payloads[k].as_slice()) {
            Ok(()) => {},
            Err(e) => {
                let r = Err(SqlError::Storage(e));
                assert(recovery_rows_hold(r, w0, f0, rows@, name@, file_view(*wal)));
                return r;
            },
        }
        assert(wal_with_rows(w0, f0, rows@, name@, k + 1) == wk + crate::wal::frame_bytes(
            f0 + k + 1,
            2 + k,
            bench_row_record(rows@[k as int], name@, k as int),
        ));
        k = k + 1;
    }
    let r = Ok(());
    assert(recovery_rows_hold(r, w0, f0, rows@, name@, file_view(*wal)));
    r
}

/// Writes the benchmark
/// table and its index to the store, then each row only as a committed log
/// frame, as a crash before the rows reach the store file leaves them.
pub fn create_section14_wal_recovery_fixture_for_bench(
    files: &mut DatabaseFiles,
    rows: &[(i64, i64, String)],
    index_name: &str,
) -> (r: Result<(), SqlError>)
    requires
        rows@.len() + 2 <= u64::MAX,
    ensures
        match fixture_open(file_view(old(files).data), file_view(old(files).wal)) {
            Err(e) => r matches Err(x) && x@ == SqlErrorM::Storage(e) && file_view(final(files).data) == present(
                file_view(old(files).data),
            ) && file_view(final(files).wal) == file_view(old(files).wal),
            Ok(s0) => recovery_fixture_holds(
                r,
                s0,
                file_view(final(files).data),
                file_view(final(files).wal),
                rows@,
                index_name.spec_bytes(),
            ),
        },
{
    let mut store = match open_fixture_store(files) {
        Ok(s) => s,
        Err(e) => {
            return Err(e);
        },
    };
    let ghost s0 = store.records();
    let name = index_name.as_bytes();
    let head = bench_head_records(name);
    let ghost hv = head@.map_values(|p: Vec<u8>| p@);
    let res = append_all(&mut store, &head);
    write_back(files, &store);
    let ghost s1 = store.records();
    let ghost w = file_view(files.wal);
    assert(store_files(file_view(files.data), w, s1));
    proof {
        store.lemma_files_settled();
        assert(wal_scan(Seq::<u8>::empty(), 0, s1.len() as int) == Ok::<(Seq<Seq<u8>>, int), StorageError>(
            (Seq::empty(), 0),
        ));
        assert(settled_files(file_view(files.data), w, s1));
    }
    proof {
        store.lemma_append_fits();
    }
    assert(appended_holds(res, s0, s1, hv, store.append_fits()));
    if res.is_err() {
        proof {
            lemma_recovery_fixture(res, s0, s1, w, res, file_view(files.data), w, rows@, name@);
        }
        return res;
    }
    let ghost w0 = match w {
        Some(x) => x,
        None => Seq::<u8>::empty(),
    };
    let ghost f0 = count_frames(w0, 0).0;
    proof {
        store.lemma_wal_frames();
        assert(count_frames(Seq::<u8>::empty(), 0) == (0int, 0int));
    }
    let payloads = bench_row_records(rows, name);
    let r = append_row_frames(&mut files.wal, &payloads, rows, name, Ghost(w0), Ghost(f0));
    proof {
        lemma_recovery_fixture(r, s0, s1, w, res, file_view(files.data), file_view(files.wal), rows@, name@);
    }
    r
}

/// The name of a storage error, as its `Debug` form writes it.
pub open spec fn storage_error_name(e: StorageError) -> Seq<u8> {
    match e {
        StorageError::TruncatedFile => "TruncatedFile".spec_bytes(),
        StorageError::TruncatedPage => "TruncatedPage".spec_bytes(),
        StorageError::InvalidMagic => "InvalidMagic".spec_bytes(),
        StorageError::UnsupportedVersion => "UnsupportedVersion".spec_bytes(),
        StorageError::RecordTooLarge => "RecordTooLarge".spec_bytes(),
        StorageError::CorruptRecordLength => "CorruptRecordLength".spec_bytes(),
        StorageError::Io => "Io".spec_bytes(),
    }
}

fn storage_error_text(e: StorageError) -> (r: &'static str)
    ensures
        r.spec_bytes() == storage_error_name(e),
{
    match e {
        StorageError::TruncatedFile => "TruncatedFile",
        StorageError::TruncatedPage => "TruncatedPage",
        StorageError::InvalidMagic => "InvalidMagic",
        StorageError::UnsupportedVersion => "UnsupportedVersion",
        StorageError::RecordTooLarge => "RecordTooLarge",
        StorageError::CorruptRecordLength => "CorruptRecordLength",
        StorageError::Io => "Io",
    }
}

/// What the command line reports for an error: the two lines it writes
/// to standard error and its exit status (2 for statements it refuses, 1
/// for storage it cannot use).
pub open spec fn report_spec(e: SqlErrorM) -> (Seq<u8>, i32) {
    match e {
        SqlErrorM::Unsupported(s) => (
            "error: unsupported SQL statement: ".spec_bytes() + s
                + "\nhint: supported SQL subset: CREATE TABLE, INSERT INTO ... VALUES, SELECT * FROM ..., SELECT * FROM ... WHERE <primary_key> = <int>;\n".spec_bytes(),
            2,
        ),
        SqlErrorM::Malformed(s) => (
            "error: malformed SQL statement: ".spec_bytes() + s
                + "\nhint: terminate each statement with ';' and use the documented SQL subset.\n".spec_bytes(),
            2,
        ),
        SqlErrorM::Semantic(message, hint) => (
            "error: SQL semantic error: ".spec_bytes() + message + "\nhint: ".spec_bytes() + hint_bytes(hint)
                + "\n".spec_bytes(),
            2,
        ),
        SqlErrorM::InvalidStorageRecord => (
            "error: invalid SQL storage record: unknown record tag\nhint: run against a database file created by this SQL contract or restore from a valid backup.\n".spec_bytes(),
            1,
        ),
        SqlErrorM::DuplicateStoredKey(t, k) => (
            "error: invalid SQL storage record: duplicate primary key for table ".spec_bytes() + t + ": ".spec_bytes()
                + crate::text::decimal(k as int) + "\nhint: primary key values must be unique in persisted SQL storage.\n".spec_bytes(),
            1,
        ),
        SqlErrorM::Storage(se) => (
            "error: storage error: ".spec_bytes() + storage_error_name(se)
                + "\nhint: database file must use the documented V1 page format.\n".spec_bytes(),
            1,
        ),
    }
}

impl SqlError {
    /// What the command line writes to standard error for this error, and
    /// the exit status it ends with.
    pub fn report(&self) -> (r: (Vec<u8>, i32))
        ensures
            r.0@ == report_spec(self@).0,
            r.1 == report_spec(self@).1,
    {
        let mut out: Vec<u8> = Vec::new();
        match self {
            SqlError::Unsupported(s) => {
                crate::bytes::push_all(&mut out, "error: unsupported SQL statement: ".as_bytes());
                crate::bytes::push_all(&mut out, s.as_slice());
                crate::bytes::push_all(
                    &mut out,
                    "\nhint: supported SQL subset: CREATE TABLE, INSERT INTO ... VALUES, SELECT * FROM ..., SELECT * FROM ... WHERE <primary_key> = <int>;\n".as_bytes(),
                );
                (out, 2)
            },
            SqlError::Malformed(s) => {
                crate::bytes::push_all(&mut out, "error: malformed SQL statement: ".as_bytes());
                crate::bytes::push_all(&mut out, s.as_slice());
                crate::bytes::push_all(
                    &mut out,
                    "\nhint: terminate each statement with ';' and use the documented SQL subset.\n".as_bytes(),
                );
                (out, 2)
            },
            SqlError::Semantic { message, hint } => {
                crate::bytes::push_all(&mut out, "error: SQL semantic error: ".as_bytes());
                crate::bytes::push_all(&mut out, message.as_slice());
                crate::bytes::push_all(&mut out, "\nhint: ".as_bytes());
                crate::bytes::push_all(&mut out, hint.text().as_bytes());
                crate::bytes::push_all(&mut out, "\n".as_bytes());
                (out, 2)
            },
            SqlError::InvalidStorageRecord => {
                crate::bytes::push_all(
                    &mut out,
                    "error: invalid SQL storage record: unknown record tag\nhint: run against a database file created by this SQL contract or restore from a valid backup.\n".as_bytes(),
                );
                (out, 1)
            },
            SqlError::DuplicateStoredKey { table, key } => {
                crate::bytes::push_all(
                    &mut out,
                    "error: invalid SQL storage record: duplicate primary key for table ".as_bytes(),
                );
                crate::bytes::push_all(&mut out, table.as_slice());
                crate::bytes::push_all(&mut out, ": ".as_bytes());
                let digits = crate::text::i64_to_decimal(*key);
                crate::bytes::push_all(&mut out, digits.as_slice());
                crate::bytes::push_all(&mut out, "\nhint: primary key values must be unique in persisted SQL storage.\n".as_bytes());
                (out, 1)
            },
            SqlError::Storage(e) => {
                crate::bytes::push_all(&mut out, "error: storage error: ".as_bytes());
                crate::bytes::push_all(&mut out, storage_error_text(*e).as_bytes());
                crate::bytes::push_all(&mut out, "\nhint: database file must use the documented V1 page format.\n".as_bytes());
                (out, 1)
            },
        }
    }
}

} // verus!
