//! The statements that change the database: each checks its input against
//! the database, appends one record to the store, then applies the change
//! in memory.
use crate::bytes::push_all;
use crate::page::{StorageError, MAX_RECORD_PAYLOAD_LEN};
use crate::record::{
    Column, ColumnM, ColumnType, EntryM, RecordM, Value, ValueM, columns_view, encode_catalog_record,
    encode_delete_row_record, encode_indexed_row_record, encode_record, encode_row_record,
    encode_update_row_record, entries_view, first_primary_key, value_type, values_view,
};
use crate::rows::{
    append_loaded_row, append_row_spec, apply_delete_to_table, apply_update_to_table, add_entries,
    clone_value, clone_values, delete_row_spec, expected_entries, expected_entries_for_row, insert_entries,
    lemma_table_ok_parts, update_row_spec,
};
use crate::schema::{
    Database, Table, TableM, db_ok, find_table, find_table_index, live, row_at, same_name, table_ok,
    tables_view, type_mismatch_message, values_check, validate_values_for_table,
};
use crate::engine::{copy_bytes, table_not_found};
use crate::sql::{Hint, SqlError, SqlErrorM};
use crate::storage::PageStore;
use crate::text::{decimal, eq_ignore_ascii_case};
use vstd::prelude::*;
use vstd::string::*;

verus! {

/// What appending `payload` to the store gives: too large a record is
/// refused; so is one the machine has no room for.
pub open spec fn append_outcome(s: PageStore, payload: Seq<u8>) -> Result<(), StorageError> {
    if payload.len() > MAX_RECORD_PAYLOAD_LEN {
        Err(StorageError::RecordTooLarge)
    } else if !s.append_fits() {
        Err(StorageError::Io)
    } else {
        Ok(())
    }
}

/// Appends one record.
pub fn append_to_store(store: &mut PageStore, payload: &Vec<u8>) -> (r: Result<(), SqlError>)
    requires
        old(store).wf(),
    ensures
        final(store).wf(),
        match append_outcome(*old(store), payload@) {
            Err(e) => r matches Err(x) && x@ == SqlErrorM::Storage(e) && *final(store) == *old(store),
            Ok(()) => r is Ok && final(store).records() == old(store).records().push(payload@),
        },
{
    match store.append_record(payload.as_slice()) {
        Ok(()) => Ok(()),
        Err(e) => Err(SqlError::Storage(e)),
    }
}

/// The first column from `j` on whose name an earlier column already has.
pub open spec fn duplicate_column_from(cs: Seq<ColumnM>, j: int) -> Option<int>
    decreases cs.len() - j,
{
    if j < 0 || j >= cs.len() {
        None
    } else if exists|i: int| 0 <= i < j && same_name(#[trigger] cs[i].name, cs[j].name) {
        Some(j)
    } else {
        duplicate_column_from(cs, j + 1)
    }
}

/// The first primary-key column from `j` on that is not `INT`.
pub open spec fn text_key_column_from(cs: Seq<ColumnM>, j: int) -> Option<int>
    decreases cs.len() - j,
{
    if j < 0 || j >= cs.len() {
        None
    } else if cs[j].is_primary_key && cs[j].column_type != ColumnType::Int {
        Some(j)
    } else {
        text_key_column_from(cs, j + 1)
    }
}

/// The number of primary-key columns among the first `n`.
pub open spec fn key_column_count(cs: Seq<ColumnM>, n: int) -> int
    decreases n,
{
    if n <= 0 {
        0
    } else {
        key_column_count(cs, n - 1) + if cs[n - 1].is_primary_key {
            1int
        } else {
            0int
        }
    }
}

/// `CREATE TABLE`'s checks: a new name, distinct column names, and at most
/// one primary key, of type `INT`.
pub open spec fn create_table_check(db: Seq<TableM>, table: Seq<u8>, cs: Seq<ColumnM>) -> Result<(), SqlErrorM> {
    if find_table(db, table) is Some {
        Err(SqlErrorM::Semantic("table already exists: ".spec_bytes() + table, Hint::NewTableName))
    } else {
        match duplicate_column_from(cs, 0) {
            Some(j) => Err(SqlErrorM::Semantic("duplicate column: ".spec_bytes() + cs[j].name, Hint::UniqueColumns)),
            None => match text_key_column_from(cs, 0) {
                Some(j) => Err(
                    SqlErrorM::Semantic("primary key column must be INT: ".spec_bytes() + cs[j].name, Hint::OneIntPrimaryKey),
                ),
                None => if key_column_count(cs, cs.len() as int) > 1 {
                    Err(
                        SqlErrorM::Semantic(
                            "multiple primary key columns for table ".spec_bytes() + table,
                            Hint::OneIntPrimaryKey,
                        ),
                    )
                } else {
                    Ok(())
                },
            },
        }
    }
}

/// A new, empty table.
pub open spec fn new_table(table: Seq<u8>, cs: Seq<ColumnM>) -> TableM {
    TableM {
        name: table,
        columns: cs,
        rows: Seq::empty(),
        pk: match first_primary_key(cs) {
            Some(p) => Some(p as usize),
            None => None,
        },
        primary: Map::empty(),
        indexes: Seq::empty(),
    }
}

pub proof fn lemma_first_primary_key_bound(cs: Seq<ColumnM>)
    ensures
        first_primary_key(cs) matches Some(p) ==> 0 <= p < cs.len() && cs[p].is_primary_key && forall|j: int|
            0 <= j < p ==> !(#[trigger] cs[j]).is_primary_key,
        first_primary_key(cs) is None ==> forall|j: int| 0 <= j < cs.len() ==> !(#[trigger] cs[j]).is_primary_key,
    decreases cs.len(),
{
    if cs.len() > 0 {
        lemma_first_primary_key_bound(cs.drop_last());
        assert forall|j: int| 0 <= j < cs.len() - 1 implies cs.drop_last()[j] == cs[j] by {}
    }
}

/// `CREATE TABLE`: checks the statement, appends the catalog record and
/// adds the table.
#[verifier::loop_isolation(false)]
pub fn execute_create_table(store: &mut PageStore, db: &mut Database, table: Vec<u8>, columns: Vec<Column>) -> (r: Result<(), SqlError>)
    requires
        old(store).wf(),
        db_ok(old(db)@),
    ensures
        final(store).wf(),
        db_ok(final(db)@),
        match create_table_check(old(db)@, table@, columns_view(columns@)) {
            Err(e) => r matches Err(x) && x@ == e && *final(store) == *old(store) && final(db)@ == old(db)@,
            Ok(()) => {
                let payload = encode_record(RecordM::Catalog { table: table@, columns: columns_view(columns@) });
                match append_outcome(*old(store), payload) {
                    Err(e) => r matches Err(x) && x@ == SqlErrorM::Storage(e) && *final(store) == *old(store)
                        && final(db)@ == old(db)@,
                    Ok(()) => r is Ok && final(store).records() == old(store).records().push(payload)
                        && final(db)@ == old(db)@.push(new_table(table@, columns_view(columns@))),
                }
            },
        },
{
    let ghost cv = columns_view(columns@);
    if find_table_index(db, table.as_slice()).is_some() {
        let mut message: Vec<u8> = Vec::new();
        push_all(&mut message, "table already exists: ".as_bytes());
        push_all(&mut message, table.as_slice());
        assert(message@ =~= "table already exists: ".spec_bytes() + table@);
        return Err(SqlError::Semantic { message, hint: Hint::NewTableName });
    }
    let n = columns.len();
    let mut j: usize = 0;
    while j < n
        invariant
            n == columns@.len(),
            cv == columns_view(columns@),
            j <= n,
            duplicate_column_from(cv, j as int) == duplicate_column_from(cv, 0),
        decreases n - j,
    {
        let mut i: usize = 0;
        let mut dup = false;
        while i < j
            invariant
                n == columns@.len(),
                cv == columns_view(columns@),
                i <= j < n,
                !dup ==> forall|q: int| 0 <= q < i ==> !same_name(#[trigger] cv[q].name, cv[j as int].name),
                dup ==> exists|q: int| 0 <= q < j && same_name(#[trigger] cv[q].name, cv[j as int].name),
            decreases j - i,
        {
            assert(cv[i as int] == columns@[i as int]@);
            assert(cv[j as int] == columns@[j as int]@);
            if !dup && eq_ignore_ascii_case(columns[i].name.as_slice(), columns[j].name.as_slice()) {
                dup = true;
                assert(same_name(cv[i as int].name, cv[j as int].name));
            }
            i = i + 1;
        }
        if dup {
            let mut message: Vec<u8> = Vec::new();
            push_all(&mut message, "duplicate column: ".as_bytes());
            push_all(&mut message, columns[j].name.as_slice());
            assert(cv[j as int] == columns@[j as int]@);
            assert(message@ =~= "duplicate column: ".spec_bytes() + cv[j as int].name);
            return Err(SqlError::Semantic { message, hint: Hint::UniqueColumns });
        }
        j = j + 1;
    }
    let mut count: usize = 0;
    let mut k: usize = 0;
    while k < n
        invariant
            n == columns@.len(),
            cv == columns_view(columns@),
            k <= n,
            count == key_column_count(cv, k as int),
            count <= k,
            text_key_column_from(cv, k as int) == text_key_column_from(cv, 0),
        decreases n - k,
    {
        assert(cv[k as int] == columns@[k as int]@);
        if columns[k].is_primary_key {
            count = count + 1;
            if columns[k].column_type != ColumnType::Int {
                let mut message: Vec<u8> = Vec::new();
                push_all(&mut message, "primary key column must be INT: ".as_bytes());
                push_all(&mut message, columns[k].name.as_slice());
                assert(message@ =~= "primary key column must be INT: ".spec_bytes() + cv[k as int].name);
                return Err(SqlError::Semantic { message, hint: Hint::OneIntPrimaryKey });
            }
        }
        k = k + 1;
    }
    if count > 1 {
        let mut message: Vec<u8> = Vec::new();
        push_all(&mut message, "multiple primary key columns for table ".as_bytes());
        push_all(&mut message, table.as_slice());
        assert(message@ =~= "multiple primary key columns for table ".spec_bytes() + table@);
        return Err(SqlError::Semantic { message, hint: Hint::OneIntPrimaryKey });
    }
    let payload = encode_catalog_record(table.as_slice(), columns.as_slice());
    append_to_store(store, &payload)?;
    let mut pk: Option<usize> = None;
    let mut q: usize = 0;
    while q < n
        invariant
            n == columns@.len(),
            cv == columns_view(columns@),
            q <= n,
            first_primary_key(cv.subrange(0, q as int)) == match pk {
                Some(p) => Some(p as int),
                None => None::<int>,
            },
            pk matches Some(p) ==> p < q,
        decreases n - q,
    {
        assert(cv.subrange(0, q + 1).drop_last() =~= cv.subrange(0, q as int));
        assert(cv.subrange(0, q + 1).last() == columns@[q as int]@);
        if pk.is_none() && columns[q].is_primary_key {
            pk = Some(q);
        }
        q = q + 1;
    }
    assert(cv.subrange(0, n as int) =~= cv);
    let t = Table {
        name: table,
        columns,
        rows: Vec::new(),
        primary_key_column: pk,
        primary_index: crate::index::PrimaryIndex::new(),
        secondary_indexes: Vec::new(),
    };
    let ghost tv = t@;
    proof {
        assert(crate::schema::rows_view(t.rows@) =~= Seq::<Option<Seq<ValueM>>>::empty());
        assert(crate::schema::indexes_view(t.secondary_indexes@) =~= Seq::<crate::schema::IndexM>::empty());
        assert(tv == new_table(table@, cv));
        lemma_table_ok_parts(tv);
    }
    let ghost before = db@;
    db.tables.push(t);
    proof {
        assert(db@ =~= before.push(tv));
        assert forall|i: int| 0 <= i < db@.len() implies table_ok(#[trigger] db@[i]) by {
            if i < before.len() {
                assert(db@[i] == before[i]);
            }
        }
    }
    Ok(())
}

/// `primary key predicate required for table NAME`.
pub open spec fn key_predicate_error(t: TableM) -> SqlErrorM {
    SqlErrorM::Semantic("primary key predicate required for table ".spec_bytes() + t.name, Hint::KeyPredicate)
}

/// The `WHERE` column must be the
/// primary key.
pub open spec fn key_predicate_check(t: TableM, where_column: Seq<u8>) -> Result<usize, SqlErrorM> {
    match t.pk {
        None => Err(key_predicate_error(t)),
        Some(c) => if same_name(t.columns[c as int].name, where_column) {
            Ok(c)
        } else {
            Err(key_predicate_error(t))
        },
    }
}

pub fn require_primary_key_predicate(t: &Table, where_column: &[u8]) -> (r: Result<usize, SqlError>)
    requires
        table_ok(t@),
    ensures
        match key_predicate_check(t@, where_column@) {
            Ok(c) => r == Ok::<usize, SqlError>(c),
            Err(e) => r matches Err(x) && x@ == e,
        },
{
    let ok = match t.primary_key_column {
        None => None,
        Some(c) => {
            assert(t@.columns[c as int] == t.columns@[c as int]@);
            if eq_ignore_ascii_case(t.columns[c].name.as_slice(), where_column) {
                Some(c)
            } else {
                None
            }
        },
    };
    match ok {
        Some(c) => Ok(c),
        None => {
            let mut message: Vec<u8> = Vec::new();
            push_all(&mut message, "primary key predicate required for table ".as_bytes());
            push_all(&mut message, t.name.as_slice());
            assert(message@ =~= "primary key predicate required for table ".spec_bytes() + t@.name);
            Err(SqlError::Semantic { message, hint: Hint::KeyPredicate })
        },
    }
}

/// `duplicate primary key for table NAME: KEY`.
pub open spec fn duplicate_key_error(t: TableM, key: i64) -> SqlErrorM {
    SqlErrorM::Semantic(
        "duplicate primary key for table ".spec_bytes() + t.name + ": ".spec_bytes() + decimal(key as int),
        Hint::UniquePrimaryKey,
    )
}

/// `INSERT`'s checks and the record it appends: the table exists, the
/// values fit its columns, the primary key is new; with secondary indexes
/// the record carries the row's entries.
#[verifier::opaque]
pub open spec fn insert_check(db: Seq<TableM>, table: Seq<u8>, vs: Seq<ValueM>) -> Result<(int, Seq<u8>), SqlErrorM> {
    match find_table(db, table) {
        None => Err(table_not_found(table, Hint::CreateTableFirst)),
        Some(i) => {
            let t = db[i];
            match values_check(t, vs) {
                Err(e) => Err(e),
                Ok(()) => {
                    let key_ok = match t.pk {
                        None => Ok(()),
                        Some(c) => match vs[c as int] {
                            ValueM::Int(k) => if t.primary.contains_key(k) {
                                Err(duplicate_key_error(t, k))
                            } else {
                                Ok(())
                            },
                            ValueM::Text(_) => Err(SqlErrorM::InvalidStorageRecord),
                        },
                    };
                    match key_ok {
                        Err(e) => Err(e),
                        Ok(()) => if t.indexes.len() == 0 {
                            Ok((i, encode_record(RecordM::Row { table: t.name, values: vs })))
                        } else {
                            match expected_entries(t, vs, t.rows.len() as int) {
                                None => Err(SqlErrorM::InvalidStorageRecord),
                                Some(es) => Ok(
                                    (i, encode_record(RecordM::IndexedRow { table: t.name, values: vs, entries: es })),
                                ),
                            }
                        },
                    }
                },
            }
        },
    }
}

/// The table after an insert: the row's entries go into the indexes, then
/// the row into a new slot.
pub open spec fn insert_apply(t: TableM, vs: Seq<ValueM>) -> Option<TableM> {
    if t.indexes.len() == 0 {
        append_row_spec(t, vs)
    } else {
        match expected_entries(t, vs, t.rows.len() as int) {
            None => None,
            Some(es) => match add_entries(t.indexes, es, t.rows.len() as usize) {
                None => None,
                Some(xs) => append_row_spec(TableM { indexes: xs, ..t }, vs),
            },
        }
    }
}

/// The checks of an insert, and the record and entries it writes.
fn plan_insert(db: &Database, table: &[u8], values: &Vec<Value>) -> (r: Result<(usize, Vec<u8>, Option<Vec<crate::record::EmbeddedIndexEntry>>), SqlError>)
    requires
        db_ok(db@),
    ensures
        match insert_check(db@, table@, values_view(values@)) {
            Err(e) => r matches Err(x) && x@ == e,
            Ok((i, payload)) => r matches Ok((j, p, es)) && j == i && p@ == payload && j < db@.len()
                && db@[i].columns.len() == values@.len()
                && (es matches Some(v) ==> crate::record::entries_keyed(v@) && db@[i].indexes.len() > 0
                    && expected_entries(db@[i], values_view(values@), db@[i].rows.len() as int) == Some(entries_view(v@)))
                && (es is None ==> db@[i].indexes.len() == 0),
        },
{
    proof {
        reveal(insert_check);
    }
    let ghost vv = values_view(values@);
    let i = match find_table_index(db, table) {
        Some(i) => i,
        None => {
            return Err(crate::engine::table_not_found_error(table, Hint::CreateTableFirst));
        },
    };
    let t = &db.tables[i];
    assert(db@[i as int] == t@);
    assert(table_ok(t@));
    validate_values_for_table(t, values)?;
    match t.primary_key_column {
        None => {},
        Some(c) => {
            assert(vv[c as int] == values@[c as int]@);
            match &values[c] {
                Value::Int(k) => {
                    if t.primary_index.get(*k).is_some() {
                        let mut message: Vec<u8> = Vec::new();
                        push_all(&mut message, "duplicate primary key for table ".as_bytes());
                        push_all(&mut message, t.name.as_slice());
                        push_all(&mut message, ": ".as_bytes());
                        let digits = crate::text::i64_to_decimal(*k);
                        push_all(&mut message, digits.as_slice());
                        assert(message@ =~= "duplicate primary key for table ".spec_bytes() + t@.name + ": ".spec_bytes()
                            + decimal(*k as int));
                        return Err(SqlError::Semantic { message, hint: Hint::UniquePrimaryKey });
                    }
                },
                Value::Text(_) => {
                    return Err(SqlError::InvalidStorageRecord);
                },
            }
        },
    }
    proof {
        lemma_table_ok_parts(t@);
    }
    if t.secondary_indexes.len() == 0 {
        let payload = encode_row_record(t.name.as_slice(), values.as_slice());
        return Ok((i, payload, None));
    }
    let es = match expected_entries_for_row(t, values, t.rows.len()) {
        Some(es) => es,
        None => {
            return Err(SqlError::InvalidStorageRecord);
        },
    };
    let payload = encode_indexed_row_record(t.name.as_slice(), values.as_slice(), es.as_slice());
    Ok((i, payload, Some(es)))
}

/// Applies a checked insert to a table.
fn insert_into_table(tm: &mut Table, values: Vec<Value>, entries: &Option<Vec<crate::record::EmbeddedIndexEntry>>) -> (r: Result<(), SqlError>)
    requires
        table_ok(old(tm)@),
        values@.len() == old(tm).columns@.len(),
        old(tm).rows@.len() + 1 < usize::MAX,
        entries matches Some(v) ==> old(tm)@.indexes.len() > 0 && expected_entries(old(tm)@, values_view(values@), old(tm)@.rows.len() as int) == Some(entries_view(v@)),
        entries is None ==> old(tm)@.indexes.len() == 0,
    ensures
        match insert_apply(old(tm)@, values_view(values@)) {
            Some(t) => r is Ok && final(tm)@ == t && table_ok(t),
            None => r matches Err(x) && x@ == SqlErrorM::InvalidStorageRecord,
        },
{
    let ghost t0 = tm@;
    proof {
        lemma_table_ok_parts(t0);
    }
    let n = tm.rows.len();
    match entries {
        None => {},
        Some(es) => {
            insert_entries(&mut tm.secondary_indexes, es, n)?;
            proof {
                crate::rows::lemma_entries_keep(t0.indexes, entries_view(es@), n, t0.rows.len() as int + 1);
                let t1 = tm@;
                assert(t1 == TableM { indexes: t1.indexes, ..t0 });
            }
        },
    }
    let ghost t1 = tm@;
    proof {
        assert forall|j: int| 0 <= j < t1.indexes.len() implies (#[trigger] t1.indexes[j]).column < t1.columns.len() by {
            assert(t1.indexes[j].column == t0.indexes[j].column);
        }
        assert(crate::rows::entries_below(t0.indexes, t0.rows.len() as int + 1));
    }
    let ghost vv = values_view(values@);
    append_loaded_row(tm, values)?;
    proof {
        let t2 = tm@;
        assert(crate::rows::entries_below(t1.indexes, t0.rows.len() as int + 1));
        assert(t2.indexes == t1.indexes);
        assert(t2.rows == t0.rows.push(Some(vv)));
        assert forall|p: int| #[trigger] live(t2, p) implies row_at(t2, p).len() == t2.columns.len() by {
            if p < t0.rows.len() {
                assert(t2.rows[p] == t0.rows[p]);
                assert(live(t0, p));
            }
        }
        assert forall|k: i64| #[trigger] t2.primary.contains_key(k) implies t2.primary[k] < t2.rows.len() by {
            if t0.primary.contains_key(k) {
                assert(t0.primary[k] < t0.rows.len());
            }
        }
        lemma_table_ok_parts(t2);
    }
    Ok(())
}

/// `INSERT`: checks the row, appends its record and adds it to the table
/// and its indexes.
pub fn execute_insert(store: &mut PageStore, db: &mut Database, table: &[u8], values: Vec<Value>) -> (r: Result<(), SqlError>)
    requires
        old(store).wf(),
        db_ok(old(db)@),
    ensures
        final(store).wf(),
        r is Ok ==> db_ok(final(db)@),
        match insert_check(old(db)@, table@, values_view(values@)) {
            Err(e) => r matches Err(x) && x@ == e && *final(store) == *old(store) && final(db)@ == old(db)@,
            Ok((i, payload)) => match append_outcome(*old(store), payload) {
                Err(e) => r matches Err(x) && x@ == SqlErrorM::Storage(e) && *final(store) == *old(store)
                    && final(db)@ == old(db)@,
                Ok(()) => final(store).records() == old(store).records().push(payload) && if old(db)@[i].rows.len()
                    + 1 >= usize::MAX {
                    r matches Err(x) && x@ == SqlErrorM::InvalidStorageRecord
                } else {
                    match insert_apply(old(db)@[i], values_view(values@)) {
                        Some(t) => r is Ok && final(db)@ == old(db)@.update(i, t),
                        None => r matches Err(x) && x@ == SqlErrorM::InvalidStorageRecord,
                    }
                },
            },
        },
{
    let ghost d0 = db@;
    let (i, payload, entries) = plan_insert(db, table, &values)?;
    append_to_store(store, &payload)?;
    assert(d0[i as int] == db.tables@[i as int]@);
    if db.tables[i].rows.len() >= usize::MAX - 1 {
        return Err(SqlError::InvalidStorageRecord);
    }
    proof {
        assert(table_ok(d0[i as int]));
    }
    let mut tm = db.tables.remove(i);
    insert_into_table(&mut tm, values, &entries)?;
    let ghost tnew = tm@;
    db.tables.insert(i, tm);
    proof {
        assert(db@ =~= d0.update(i as int, tnew));
        assert forall|k: int| 0 <= k < db@.len() implies table_ok(#[trigger] db@[k]) by {
            if k != i {
                assert(db@[k] == d0[k]);
            }
        }
    }
    Ok(())
}

/// The first column from `j` on named `name`, ignoring case.
pub open spec fn column_from(cs: Seq<ColumnM>, name: Seq<u8>, j: int) -> Option<int>
    decreases cs.len() - j,
{
    if j < 0 || j >= cs.len() {
        None
    } else if same_name(cs[j].name, name) {
        Some(j)
    } else {
        column_from(cs, name, j + 1)
    }
}

pub proof fn lemma_column_from(cs: Seq<ColumnM>, name: Seq<u8>, j: int)
    requires
        0 <= j <= cs.len(),
    ensures
        column_from(cs, name, j) matches Some(k) ==> j <= k < cs.len(),
    decreases cs.len() - j,
{
    if j < cs.len() && !same_name(cs[j].name, name) {
        lemma_column_from(cs, name, j + 1);
    }
}

/// The position of the column named `name`.
pub fn column_position(t: &Table, name: &[u8]) -> (r: Option<usize>)
    ensures
        r == match column_from(t@.columns, name@, 0) {
            Some(k) => Some(k as usize),
            None => None::<usize>,
        },
        column_from(t@.columns, name@, 0) matches Some(k) ==> 0 <= k < t.columns.len(),
{
    proof {
        lemma_column_from(t@.columns, name@, 0);
    }
    let n = t.columns.len();
    let mut j: usize = 0;
    while j < n
        invariant
            n == t.columns@.len(),
            j <= n,
            column_from(t@.columns, name@, j as int) == column_from(t@.columns, name@, 0),
        decreases n - j,
    {
        assert(t@.columns[j as int] == t.columns@[j as int]@);
        if eq_ignore_ascii_case(t.columns[j].name.as_slice(), name) {
            return Some(j);
        }
        j = j + 1;
    }
    None
}

/// `UPDATE`'s checks: the table exists, the `WHERE` column is its primary
/// key, the `SET` column exists, is not the key and takes the value's
/// type. `None` when no row has the key; otherwise the table, the slot,
/// the new row and its entries.
#[verifier::opaque]
pub open spec fn update_check(
    db: Seq<TableM>,
    table: Seq<u8>,
    set_column: Seq<u8>,
    v: ValueM,
    where_column: Seq<u8>,
    key: i64,
) -> Result<Option<(int, int, Seq<ValueM>, Seq<EntryM>)>, SqlErrorM> {
    match find_table(db, table) {
        None => Err(table_not_found(table, Hint::CreateTableFirst)),
        Some(i) => {
            let t = db[i];
            match key_predicate_check(t, where_column) {
                Err(e) => Err(e),
                Ok(c) => match column_from(t.columns, set_column, 0) {
                    None => Err(
                        SqlErrorM::Semantic("column not found for UPDATE: ".spec_bytes() + set_column, Hint::UpdateExistingColumn),
                    ),
                    Some(s) => if s == c {
                        Err(
                            SqlErrorM::Semantic(
                                "cannot update primary key column: ".spec_bytes() + set_column,
                                Hint::UpdateNonKeyColumn,
                            ),
                        )
                    } else if t.columns[s].column_type != value_type(v) {
                        Err(
                            SqlErrorM::Semantic(
                                type_mismatch_message(t.columns[s].name, t.columns[s].column_type, value_type(v)),
                                Hint::UpdateType,
                            ),
                        )
                    } else if !t.primary.contains_key(key) {
                        Ok(None)
                    } else {
                        let p = t.primary[key] as int;
                        if !live(t, p) {
                            Err(SqlErrorM::InvalidStorageRecord)
                        } else {
                            let vs = row_at(t, p).update(s, v);
                            match values_check(t, vs) {
                                Err(e) => Err(e),
                                Ok(()) => match expected_entries(t, vs, p) {
                                    None => Err(SqlErrorM::InvalidStorageRecord),
                                    Some(es) => Ok(Some((i, p, vs, es))),
                                },
                            }
                        }
                    },
                },
            }
        },
    }
}

/// The record an update appends.
pub open spec fn update_payload(t: TableM, p: int, vs: Seq<ValueM>, es: Seq<EntryM>) -> Seq<u8> {
    encode_record(RecordM::UpdateRow { table: t.name, row_position: p as u64, values: vs, entries: es })
}

fn plan_update(db: &Database, table: &[u8], set_column: &[u8], value: &Value, where_column: &[u8], key: i64) -> (r: Result<
    Option<(usize, usize, Vec<Value>, Vec<crate::record::EmbeddedIndexEntry>)>,
    SqlError,
>)
    requires
        db_ok(db@),
    ensures
        match update_check(db@, table@, set_column@, value@, where_column@, key) {
            Err(e) => r matches Err(x) && x@ == e,
            Ok(None) => r matches Ok(None),
            Ok(Some((i, p, vs, es))) => r matches Ok(Some((i2, p2, v2, e2))) && i2 == i && p2 == p && values_view(v2@)
                == vs && entries_view(e2@) == es && i < db@.len() && live(db@[i], p) && vs.len()
                == db@[i].columns.len(),
        },
{
    proof {
        reveal(update_check);
    }
    let i = match find_table_index(db, table) {
        Some(i) => i,
        None => {
            return Err(crate::engine::table_not_found_error(table, Hint::CreateTableFirst));
        },
    };
    let t = &db.tables[i];
    assert(db@[i as int] == t@);
    assert(table_ok(t@));
    let c = require_primary_key_predicate(t, where_column)?;
    let s = match column_position(t, set_column) {
        Some(s) => s,
        None => {
            let mut message: Vec<u8> = Vec::new();
            push_all(&mut message, "column not found for UPDATE: ".as_bytes());
            push_all(&mut message, set_column);
            assert(message@ =~= "column not found for UPDATE: ".spec_bytes() + set_column@);
            return Err(SqlError::Semantic { message, hint: Hint::UpdateExistingColumn });
        },
    };
    if s == c {
        let mut message: Vec<u8> = Vec::new();
        push_all(&mut message, "cannot update primary key column: ".as_bytes());
        push_all(&mut message, set_column);
        assert(message@ =~= "cannot update primary key column: ".spec_bytes() + set_column@);
        return Err(SqlError::Semantic { message, hint: Hint::UpdateNonKeyColumn });
    }
    assert(t@.columns[s as int] == t.columns@[s as int]@);
    let vt = match value {
        Value::Int(_) => ColumnType::Int,
        Value::Text(_) => ColumnType::Text,
    };
    if t.columns[s].column_type != vt {
        let mut message: Vec<u8> = Vec::new();
        crate::schema::push_type_mismatch(&mut message, t.columns[s].name.as_slice(), t.columns[s].column_type, vt);
        return Err(SqlError::Semantic { message, hint: Hint::UpdateType });
    }
    let p = match t.primary_index.get(key) {
        Some(p) => p,
        None => {
            return Ok(None);
        },
    };
    if p >= t.rows.len() || t.rows[p].is_none() {
        proof {
            if p < t.rows@.len() {
                assert(t@.rows[p as int] == crate::schema::row_view(t.rows@[p as int]));
            }
        }
        return Err(SqlError::InvalidStorageRecord);
    }
    let mut values = match &t.rows[p] {
        Some(row) => clone_values(row),
        None => {
            return Err(SqlError::InvalidStorageRecord);
        },
    };
    assert(t@.rows[p as int] == crate::schema::row_view(t.rows@[p as int]));
    assert(live(t@, p as int));
    proof {
        lemma_table_ok_parts(t@);
    }
    let ghost old_row = values_view(values@);
    values.set(s, clone_value(value));
    assert(values_view(values@) =~= old_row.update(s as int, value@));
    validate_values_for_table(t, &values)?;
    let es = match expected_entries_for_row(t, &values, p) {
        Some(es) => es,
        None => {
            return Err(SqlError::InvalidStorageRecord);
        },
    };
    Ok(Some((i, p, values, es)))
}

/// The number of rows changed, 0 or 1.
pub fn execute_update(
    store: &mut PageStore,
    db: &mut Database,
    table: &[u8],
    set_column: &[u8],
    value: &Value,
    where_column: &[u8],
    key: i64,
) -> (r: Result<u64, SqlError>)
    requires
        old(store).wf(),
        db_ok(old(db)@),
    ensures
        final(store).wf(),
        r is Ok ==> db_ok(final(db)@),
        match update_check(old(db)@, table@, set_column@, value@, where_column@, key) {
            Err(e) => r matches Err(x) && x@ == e && *final(store) == *old(store) && final(db)@ == old(db)@,
            Ok(None) => r == Ok::<u64, SqlError>(0) && *final(store) == *old(store) && final(db)@ == old(db)@,
            Ok(Some((i, p, vs, es))) => {
                let payload = update_payload(old(db)@[i], p, vs, es);
                match append_outcome(*old(store), payload) {
                    Err(e) => r matches Err(x) && x@ == SqlErrorM::Storage(e) && *final(store) == *old(store)
                        && final(db)@ == old(db)@,
                    Ok(()) => final(store).records() == old(store).records().push(payload) && match update_row_spec(
                        old(db)@[i],
                        p,
                        vs,
                        es,
                    ) {
                        Some(t) => r == Ok::<u64, SqlError>(1) && final(db)@ == old(db)@.update(i, t),
                        None => r matches Err(x) && x@ == SqlErrorM::InvalidStorageRecord,
                    },
                }
            },
        },
{
    let ghost d0 = db@;
    let (i, p, values, es) = match plan_update(db, table, set_column, value, where_column, key)? {
        Some(x) => x,
        None => {
            return Ok(0);
        },
    };
    assert(d0[i as int] == db.tables@[i as int]@);
    let payload = encode_update_row_record(db.tables[i].name.as_slice(), p as u64, values.as_slice(), es.as_slice());
    append_to_store(store, &payload)?;
    let mut tm = db.tables.remove(i);
    apply_update_to_table(&mut tm, p, values, &es)?;
    let ghost tnew = tm@;
    db.tables.insert(i, tm);
    proof {
        assert(db@ =~= d0.update(i as int, tnew));
        assert forall|k: int| 0 <= k < db@.len() implies table_ok(#[trigger] db@[k]) by {
            if k != i {
                assert(db@[k] == d0[k]);
            }
        }
    }
    Ok(1)
}

/// `DELETE`'s checks: the table exists and the `WHERE` column is its
/// primary key. `None` when no row has the key; otherwise the table and
/// the slot.
#[verifier::opaque]
pub open spec fn delete_check(db: Seq<TableM>, table: Seq<u8>, where_column: Seq<u8>, key: i64) -> Result<Option<(int, int)>, SqlErrorM> {
    match find_table(db, table) {
        None => Err(table_not_found(table, Hint::CreateTableFirst)),
        Some(i) => {
            let t = db[i];
            match key_predicate_check(t, where_column) {
                Err(e) => Err(e),
                Ok(_) => if !t.primary.contains_key(key) {
                    Ok(None)
                } else if !live(t, t.primary[key] as int) {
                    Err(SqlErrorM::InvalidStorageRecord)
                } else {
                    Ok(Some((i, t.primary[key] as int)))
                },
            }
        },
    }
}

/// The number of rows deleted, 0 or 1.
pub fn execute_delete(store: &mut PageStore, db: &mut Database, table: &[u8], where_column: &[u8], key: i64) -> (r: Result<u64, SqlError>)
    requires
        old(store).wf(),
        db_ok(old(db)@),
    ensures
        final(store).wf(),
        r is Ok ==> db_ok(final(db)@),
        match delete_check(old(db)@, table@, where_column@, key) {
            Err(e) => r matches Err(x) && x@ == e && *final(store) == *old(store) && final(db)@ == old(db)@,
            Ok(None) => r == Ok::<u64, SqlError>(0) && *final(store) == *old(store) && final(db)@ == old(db)@,
            Ok(Some((i, p))) => {
                let payload = encode_record(RecordM::DeleteRow { table: old(db)@[i].name, row_position: p as u64 });
                match append_outcome(*old(store), payload) {
                    Err(e) => r matches Err(x) && x@ == SqlErrorM::Storage(e) && *final(store) == *old(store)
                        && final(db)@ == old(db)@,
                    Ok(()) => final(store).records() == old(store).records().push(payload) && match delete_row_spec(
                        old(db)@[i],
                        p,
                    ) {
                        Some(t) => r == Ok::<u64, SqlError>(1) && final(db)@ == old(db)@.update(i, t),
                        None => r matches Err(x) && x@ == SqlErrorM::InvalidStorageRecord,
                    },
                }
            },
        },
{
    proof {
        reveal(delete_check);
    }
    let ghost d0 = db@;
    let i = match find_table_index(db, table) {
        Some(i) => i,
        None => {
            return Err(crate::engine::table_not_found_error(table, Hint::CreateTableFirst));
        },
    };
    assert(d0[i as int] == db.tables@[i as int]@);
    assert(table_ok(d0[i as int]));
    require_primary_key_predicate(&db.tables[i], where_column)?;
    let p = match db.tables[i].primary_index.get(key) {
        Some(p) => p,
        None => {
            return Ok(0);
        },
    };
    if p >= db.tables[i].rows.len() || db.tables[i].rows[p].is_none() {
        proof {
            if p < db.tables@[i as int].rows@.len() {
                assert(d0[i as int].rows[p as int] == crate::schema::row_view(db.tables@[i as int].rows@[p as int]));
            }
        }
        return Err(SqlError::InvalidStorageRecord);
    }
    assert(d0[i as int].rows[p as int] == crate::schema::row_view(db.tables@[i as int].rows@[p as int]));
    let payload = encode_delete_row_record(db.tables[i].name.as_slice(), p as u64);
    append_to_store(store, &payload)?;
    let mut tm = db.tables.remove(i);
    apply_delete_to_table(&mut tm, p)?;
    let ghost tnew = tm@;
    db.tables.insert(i, tm);
    proof {
        assert(db@ =~= d0.update(i as int, tnew));
        assert forall|k: int| 0 <= k < db@.len() implies table_ok(#[trigger] db@[k]) by {
            if k != i {
                assert(db@[k] == d0[k]);
            }
        }
    }
    Ok(1)
}

/// The entries a new index takes from the rows in slots `0..n`, in slot
/// order; `None` if a row cannot give one.
pub open spec fn backfill(x: crate::schema::IndexM, t: TableM, n: int) -> Option<Seq<EntryM>>
    decreases n,
{
    if n <= 0 {
        Some(Seq::empty())
    } else {
        match backfill(x, t, n - 1) {
            None => None,
            Some(es) => if live(t, n - 1) {
                match crate::rows::expected_entry(x, t, row_at(t, n - 1), n - 1) {
                    None => None,
                    Some(e) => Some(es.push(e)),
                }
            } else {
                Some(es)
            },
        }
    }
}

/// An index map holding the entries, each at its row position; `None` if
/// two entries share a (key, tie break) pair.
pub open spec fn fill_entries(m: Map<(i64, i64), usize>, es: Seq<EntryM>) -> Option<Map<(i64, i64), usize>>
    decreases es.len(),
{
    if es.len() == 0 {
        Some(m)
    } else {
        match fill_entries(m, es.drop_last()) {
            None => None,
            Some(cur) => {
                let e = es.last();
                if cur.contains_key((e.indexed_key, e.tie_break)) {
                    None
                } else {
                    Some(cur.insert((e.indexed_key, e.tie_break), e.row_position as usize))
                }
            },
        }
    }
}

/// `CREATE INDEX`'s checks: a new index name, an existing table and `INT`
/// column; then the entries of the existing rows. Gives the table, the
/// column, the tie break and the entries.
#[verifier::opaque]
pub open spec fn create_index_check(db: Seq<TableM>, build_id: u64, index: Seq<u8>, table: Seq<u8>, column: Seq<u8>) -> Result<
    (int, int, crate::record::TieBreakMode, Seq<EntryM>),
    SqlErrorM,
> {
    if crate::schema::has_index_named(db, index) {
        Err(SqlErrorM::Semantic("index already exists: ".spec_bytes() + index, Hint::NewIndexName))
    } else {
        match find_table(db, table) {
            None => Err(table_not_found(table, Hint::CreateTableBeforeIndex)),
            Some(i) => {
                let t = db[i];
                match column_from(t.columns, column, 0) {
                    None => Err(
                        SqlErrorM::Semantic(
                            "column not found for index ".spec_bytes() + index + ": ".spec_bytes() + column,
                            Hint::IndexExistingColumn,
                        ),
                    ),
                    Some(c) => if t.columns[c].column_type != ColumnType::Int {
                        Err(
                            SqlErrorM::Semantic(
                                "secondary index column must be INT: ".spec_bytes() + column,
                                Hint::IndexIntColumn,
                            ),
                        )
                    } else {
                        let mode = if t.pk is Some {
                            crate::record::TieBreakMode::PrimaryKey
                        } else {
                            crate::record::TieBreakMode::RowPosition
                        };
                        let x = crate::schema::IndexM {
                            build_id,
                            name: index,
                            column: c as usize,
                            mode,
                            entries: Map::empty(),
                        };
                        match backfill(x, t, t.rows.len() as int) {
                            None => Err(SqlErrorM::InvalidStorageRecord),
                            Some(es) => Ok((i, c, mode, es)),
                        }
                    },
                }
            },
        }
    }
}

/// The records an index build appends: one per entry, then the metadata.
pub open spec fn create_index_payloads(
    build_id: u64,
    index: Seq<u8>,
    t: TableM,
    c: int,
    mode: crate::record::TieBreakMode,
    es: Seq<EntryM>,
) -> Seq<Seq<u8>> {
    es.map_values(|e: EntryM| encode_record(RecordM::Entry { entry: e })).push(
        encode_record(
            RecordM::Metadata { build_id, index_name: index, table_name: t.name, indexed_column: c as u16, tie_break_mode: mode },
        ),
    )
}

pub(crate) proof fn lemma_backfill_below(x: crate::schema::IndexM, t: TableM, n: int)
    requires
        0 <= n <= t.rows.len(),
        t.rows.len() <= usize::MAX,
    ensures
        backfill(x, t, n) matches Some(es) ==> forall|k: int| 0 <= k < es.len() ==> (#[trigger] es[k]).row_position < n,
    decreases n,
{
    if n > 0 {
        lemma_backfill_below(x, t, n - 1);
    }
}

pub(crate) proof fn lemma_fill_below(m: Map<(i64, i64), usize>, es: Seq<EntryM>, bound: int)
    requires
        forall|e: (i64, i64)| #[trigger] m.contains_key(e) ==> m[e] < bound,
        forall|k: int| 0 <= k < es.len() ==> (#[trigger] es[k]).row_position < bound,
        bound <= usize::MAX,
    ensures
        fill_entries(m, es) matches Some(f) ==> forall|e: (i64, i64)| #[trigger] f.contains_key(e) ==> f[e] < bound,
    decreases es.len(),
{
    if es.len() > 0 {
        lemma_fill_below(m, es.drop_last(), bound);
    }
}

pub(crate) fn backfill_entries(x: &crate::schema::IndexState, t: &Table) -> (r: Option<Vec<crate::record::EmbeddedIndexEntry>>)
    requires
        table_ok(t@),
        x.indexed_column < t.columns@.len(),
    ensures
        match backfill(x@, t@, t@.rows.len() as int) {
            Some(es) => r matches Some(v) && entries_view(v@) == es && crate::record::entries_keyed(v@),
            None => r is None,
        },
{
    let n = t.rows.len();
    let mut out: Vec<crate::record::EmbeddedIndexEntry> = Vec::new();
    let mut p: usize = 0;
    assert(entries_view(out@) =~= Seq::<EntryM>::empty());
    while p < n
        invariant
            n == t.rows@.len(),
            table_ok(t@),
            x.indexed_column < t.columns@.len(),
            p <= n,
            backfill(x@, t@, p as int) == Some(entries_view(out@)),
            crate::record::entries_keyed(out@),
        decreases n - p,
    {
        assert(t@.rows[p as int] == crate::schema::row_view(t.rows@[p as int]));
        match &t.rows[p] {
            Some(row) => {
                assert(live(t@, p as int));
                assert(row_at(t@, p as int).len() == t@.columns.len());
                match crate::rows::expected_entry_for_index(x, t, row, p) {
                    Some(e) => {
                        let ghost before = out@;
                        out.push(e);
                        assert(entries_view(out@) =~= entries_view(before).push(e@));
                    },
                    None => {
                        proof {
                            lemma_backfill_none_after(x@, t@, p as int + 1, n as int);
                        }
                        return None;
                    },
                }
            },
            None => {},
        }
        p = p + 1;
    }
    Some(out)
}

proof fn lemma_backfill_none_after(x: crate::schema::IndexM, t: TableM, k: int, n: int)
    requires
        0 <= k <= n,
        backfill(x, t, k) is None,
    ensures
        backfill(x, t, n) is None,
    decreases n - k,
{
    if k < n {
        lemma_backfill_none_after(x, t, k, n - 1);
    }
}

/// The checks of an index build and the entries it takes.
fn plan_create_index(db: &Database, build_id: u64, index: Vec<u8>, table: &[u8], column: &[u8]) -> (r: Result<
    (usize, usize, crate::record::TieBreakMode, crate::schema::IndexState, Vec<crate::record::EmbeddedIndexEntry>),
    SqlError,
>)
    requires
        db_ok(db@),
    ensures
        match create_index_check(db@, build_id, index@, table@, column@) {
            Err(e) => r matches Err(x) && x@ == e,
            Ok((i, c, mode, es)) => r matches Ok((i2, c2, m2, st, v)) && i2 == i && c2 == c && m2 == mode
                && entries_view(v@) == es && st@ == (crate::schema::IndexM {
                build_id,
                name: index@,
                column: c as usize,
                mode,
                entries: Map::empty(),
            }) && i < db@.len() && c < db@[i].columns.len() && forall|k: int|
                0 <= k < es.len() ==> (#[trigger] es[k]).row_position < db@[i].rows.len(),
        },
{
    proof {
        reveal(create_index_check);
    }
    if crate::schema::contains_index_name(db, index.as_slice()) {
        let mut message: Vec<u8> = Vec::new();
        push_all(&mut message, "index already exists: ".as_bytes());
        push_all(&mut message, index.as_slice());
        assert(message@ =~= "index already exists: ".spec_bytes() + index@);
        return Err(SqlError::Semantic { message, hint: Hint::NewIndexName });
    }
    let i = match find_table_index(db, table) {
        Some(i) => i,
        None => {
            return Err(crate::engine::table_not_found_error(table, Hint::CreateTableBeforeIndex));
        },
    };
    let t = &db.tables[i];
    assert(db@[i as int] == t@);
    assert(table_ok(t@));
    let c = match column_position(t, column) {
        Some(c) => c,
        None => {
            let mut message: Vec<u8> = Vec::new();
            push_all(&mut message, "column not found for index ".as_bytes());
            push_all(&mut message, index.as_slice());
            push_all(&mut message, ": ".as_bytes());
            push_all(&mut message, column);
            assert(message@ =~= "column not found for index ".spec_bytes() + index@ + ": ".spec_bytes() + column@);
            return Err(SqlError::Semantic { message, hint: Hint::IndexExistingColumn });
        },
    };
    assert(t@.columns[c as int] == t.columns@[c as int]@);
    if t.columns[c].column_type != ColumnType::Int {
        let mut message: Vec<u8> = Vec::new();
        push_all(&mut message, "secondary index column must be INT: ".as_bytes());
        push_all(&mut message, column);
        assert(message@ =~= "secondary index column must be INT: ".spec_bytes() + column@);
        return Err(SqlError::Semantic { message, hint: Hint::IndexIntColumn });
    }
    let mode = if t.primary_key_column.is_some() {
        crate::record::TieBreakMode::PrimaryKey
    } else {
        crate::record::TieBreakMode::RowPosition
    };
    let state = crate::schema::IndexState {
        build_id,
        name: index,
        indexed_column: c,
        tie_break_mode: mode,
        index: crate::index::SecondaryIndex::new(),
    };
    let entries = match backfill_entries(&state, t) {
        Some(es) => es,
        None => {
            return Err(SqlError::InvalidStorageRecord);
        },
    };
    proof {
        lemma_table_ok_parts(t@);
        assert(t.rows.len() == t@.rows.len());
        lemma_backfill_below(state@, t@, t@.rows.len() as int);
    }
    Ok((i, c, mode, state, entries))
}

/// The first record from `j` on that is too large for a page.
pub open spec fn too_large_from(ps: Seq<Seq<u8>>, j: int) -> Option<int>
    decreases ps.len() - j,
{
    if j < 0 || j >= ps.len() {
        None
    } else if ps[j].len() > MAX_RECORD_PAYLOAD_LEN {
        Some(j)
    } else {
        too_large_from(ps, j + 1)
    }
}

/// The store ran out of room: it holds the records of `ps` before some
/// record `k` after `before`, and the store so reached (`room` says whether
/// it could take one more record) has no room for record `k`.
pub open spec fn out_of_room<T>(r: Result<T, SqlError>, before: Seq<Seq<u8>>, after: Seq<Seq<u8>>, ps: Seq<Seq<u8>>, room: bool) -> bool {
    &&& r matches Err(x) && x@ == SqlErrorM::Storage(StorageError::Io)
    &&& !room
    &&& exists|k: int| 0 <= k < ps.len() && after == before + ps.subrange(0, k)
}

/// The records of `ps` that come before the first one too large for a page.
pub open spec fn appendable(ps: Seq<Seq<u8>>) -> Seq<Seq<u8>> {
    match too_large_from(ps, 0) {
        Some(k) => ps.subrange(0, k),
        None => ps,
    }
}

proof fn lemma_too_large_from(ps: Seq<Seq<u8>>, j: int)
    requires
        0 <= j <= ps.len(),
    ensures
        too_large_from(ps, j) matches Some(k) ==> j <= k < ps.len() && ps[k].len() > MAX_RECORD_PAYLOAD_LEN,
        too_large_from(ps, j) is None ==> forall|q: int| j <= q < ps.len() ==> (#[trigger] ps[q]).len() <= MAX_RECORD_PAYLOAD_LEN,
    decreases ps.len() - j,
{
    if j < ps.len() && ps[j].len() <= MAX_RECORD_PAYLOAD_LEN {
        lemma_too_large_from(ps, j + 1);
    }
}

/// Appends the records `ps` in order, stopping at the first refused.
pub(crate) fn append_all(store: &mut PageStore, ps: &Vec<Vec<u8>>) -> (r: Result<(), SqlError>)
    requires
        old(store).wf(),
    ensures
        final(store).wf(),
        ({
            let pv = ps@.map_values(|p: Vec<u8>| p@);
            out_of_room(r, old(store).records(), final(store).records(), appendable(pv), final(store).append_fits()) || match too_large_from(pv, 0) {
                Some(k) => r matches Err(x) && x@ == SqlErrorM::Storage(StorageError::RecordTooLarge)
                    && final(store).records() == old(store).records() + pv.subrange(0, k),
                None => r is Ok && final(store).records() == old(store).records() + pv,
            }
        }),
{
    let ghost pv = ps@.map_values(|p: Vec<u8>| p@);
    let ghost s0 = store.records();
    let n = ps.len();
    let mut k: usize = 0;
    assert(pv.subrange(0, 0) =~= Seq::<Seq<u8>>::empty());
    assert(s0 + Seq::<Seq<u8>>::empty() =~= s0);
    while k < n
        invariant
            n == ps@.len(),
            pv == ps@.map_values(|p: Vec<u8>| p@),
            k <= n,
            store.wf(),
            s0 == old(store).records(),
            store.records() == s0 + pv.subrange(0, k as int),
            too_large_from(pv, k as int) == too_large_from(pv, 0),
        decreases n - k,
    {
        assert(pv[k as int] == ps@[k as int]@);
        match append_to_store(store, &ps[k]) {
            Ok(()) => {},
            Err(e) => {
                proof {
                    if pv[k as int].len() <= MAX_RECORD_PAYLOAD_LEN {
                        lemma_too_large_from(pv, k as int + 1);
                        match too_large_from(pv, 0) {
                            Some(j) => {
                                assert(appendable(pv).subrange(0, k as int) =~= pv.subrange(0, k as int));
                            },
                            None => {},
                        }
                    }
                }
                return Err(e);
            },
        }
        assert(pv.subrange(0, k + 1) =~= pv.subrange(0, k as int).push(pv[k as int]));
        k = k + 1;
    }
    assert(pv.subrange(0, n as int) =~= pv);
    Ok(())
}

/// Puts the entries into the index, each at its row position.
pub(crate) fn fill_index(state: &mut crate::schema::IndexState, entries: &Vec<crate::record::EmbeddedIndexEntry>) -> (r: Result<(), SqlError>)
    ensures
        match fill_entries(old(state).index@, entries_view(entries@)) {
            Some(m) => r is Ok && final(state)@ == (crate::schema::IndexM { entries: m, ..old(state)@ }),
            None => r matches Err(x) && x@ == SqlErrorM::InvalidStorageRecord,
        },
{
    let ghost m0 = state.index@;
    let ghost ev = entries_view(entries@);
    let n = entries.len();
    let mut q: usize = 0;
    assert(ev.subrange(0, 0) =~= Seq::<EntryM>::empty());
    while q < n
        invariant
            n == entries@.len(),
            ev == entries_view(entries@),
            q <= n,
            m0 == old(state).index@,
            fill_entries(m0, ev.subrange(0, q as int)) == Some(state.index@),
            state@ == (crate::schema::IndexM { entries: state.index@, ..old(state)@ }),
        decreases n - q,
    {
        assert(ev.subrange(0, q + 1).drop_last() =~= ev.subrange(0, q as int));
        assert(ev.subrange(0, q + 1).last() == entries@[q as int]@);
        let e = &entries[q];
        match state.index.insert(e.indexed_key, e.tie_break, e.row_position as usize) {
            Ok(()) => {},
            Err(_) => {
                proof {
                    lemma_fill_none_after(m0, ev, q as int + 1);
                }
                return Err(SqlError::InvalidStorageRecord);
            },
        }
        q = q + 1;
    }
    assert(ev.subrange(0, n as int) =~= ev);
    Ok(())
}

/// The table after an index build with entry map `m`.
pub open spec fn with_new_index(
    t: TableM,
    build_id: u64,
    index: Seq<u8>,
    c: int,
    mode: crate::record::TieBreakMode,
    m: Map<(i64, i64), usize>,
) -> TableM {
    TableM {
        indexes: t.indexes.push(crate::schema::IndexM { build_id, name: index, column: c as usize, mode, entries: m }),
        ..t
    }
}

/// What an index build gives when the machine has room: the new database
/// and the records appended; or the error, with the records appended before
/// it (the entry records and the metadata record, up to the first too large
/// for a page).
#[verifier::opaque]
pub open spec fn create_index_outcome(db: Seq<TableM>, build_id: u64, index: Seq<u8>, table: Seq<u8>, column: Seq<u8>) -> Result<
    (Seq<TableM>, Seq<Seq<u8>>),
    (SqlErrorM, Seq<Seq<u8>>),
> {
    match create_index_check(db, build_id, index, table, column) {
        Err(e) => Err((e, Seq::empty())),
        Ok((i, c, mode, es)) => {
            let ps = create_index_payloads(build_id, index, db[i], c, mode, es);
            match too_large_from(ps, 0) {
                Some(k) => Err((SqlErrorM::Storage(StorageError::RecordTooLarge), ps.subrange(0, k))),
                None => match fill_entries(Map::empty(), es) {
                    None => Err((SqlErrorM::InvalidStorageRecord, ps)),
                    Some(m) => Ok((db.update(i, with_new_index(db[i], build_id, index, c, mode, m)), ps)),
                },
            }
        },
    }
}

/// The records an outcome appended.
pub open spec fn outcome_payloads<D, E>(o: Result<(D, Seq<Seq<u8>>), (E, Seq<Seq<u8>>)>) -> Seq<Seq<u8>> {
    match o {
        Ok((_, ps)) => ps,
        Err((_, ps)) => ps,
    }
}

/// What an index build does: its outcome, unless the machine runs out of
/// room first, in which case the store holds a prefix of its records.
pub open spec fn create_index_post(
    r: Result<u64, SqlError>,
    s0: Seq<Seq<u8>>,
    s1: Seq<Seq<u8>>,
    d0: Seq<TableM>,
    d1: Seq<TableM>,
    build_id: u64,
    index: Seq<u8>,
    table: Seq<u8>,
    column: Seq<u8>,
    room: bool,
) -> bool {
    let o = create_index_outcome(d0, build_id, index, table, column);
    out_of_room(r, s0, s1, outcome_payloads(o), room) || match o {
        Ok((d, ps)) => r is Ok && d1 == d && s1 == s0 + ps,
        Err((e, ps)) => r matches Err(x) && x@ == e && s1 == s0 + ps,
    }
}

/// The records of an index build: one per entry, then the metadata.
fn index_build_records(entries: &Vec<crate::record::EmbeddedIndexEntry>, meta: Vec<u8>) -> (ps: Vec<Vec<u8>>)
    ensures
        ps@.map_values(|p: Vec<u8>| p@) == entries_view(entries@).map_values(
            |e: EntryM| encode_record(RecordM::Entry { entry: e }),
        ).push(meta@),
{
    let mut ps: Vec<Vec<u8>> = Vec::new();
    let n = entries.len();
    let mut k: usize = 0;
    let ghost ev = entries_view(entries@);
    while k < n
        invariant
            n == entries@.len(),
            ev == entries_view(entries@),
            k <= n,
            ps@.map_values(|p: Vec<u8>| p@) == ev.subrange(0, k as int).map_values(
                |e: EntryM| encode_record(RecordM::Entry { entry: e }),
            ),
        decreases n - k,
    {
        let p = crate::record::encode_secondary_entry_record(&entries[k]);
        let ghost before = ps@;
        ps.push(p);
        assert(ps@.map_values(|p: Vec<u8>| p@) =~= before.map_values(|p: Vec<u8>| p@).push(p@));
        assert(ev.subrange(0, k + 1).map_values(|e: EntryM| encode_record(RecordM::Entry { entry: e })) =~= ev.subrange(
            0,
            k as int,
        ).map_values(|e: EntryM| encode_record(RecordM::Entry { entry: e })).push(encode_record(RecordM::Entry { entry: ev[k as int] })));
        k = k + 1;
    }
    let ghost before = ps@;
    ps.push(meta);
    assert(ev.subrange(0, n as int) =~= ev);
    assert(ps@.map_values(|p: Vec<u8>| p@) =~= before.map_values(|p: Vec<u8>| p@).push(ps@[n as int]@));
    ps
}

/// Adds a built index to table `i`.
#[verifier::spinoff_prover]
pub(crate) fn install_index(db: &mut Database, i: usize, state: crate::schema::IndexState)
    requires
        db_ok(old(db)@),
        i < old(db)@.len(),
        state@.column < old(db)@[i as int].columns.len(),
        forall|e: (i64, i64)| #[trigger] state@.entries.contains_key(e) ==> state@.entries[e] < old(db)@[i as int].rows.len(),
    ensures
        db_ok(final(db)@),
        final(db)@ == old(db)@.update(
            i as int,
            with_new_index(old(db)@[i as int], state@.build_id, state@.name, state@.column as int, state@.mode, state@.entries),
        ),
{
    let ghost d0 = db@;
    let ghost sv = state@;
    let mut tm = db.tables.remove(i);
    assert(tm@ == d0[i as int]);
    tm.secondary_indexes.push(state);
    let ghost tnew = tm@;
    db.tables.insert(i, tm);
    proof {
        let t0 = d0[i as int];
        lemma_table_ok_parts(t0);
        assert(tnew.indexes =~= t0.indexes.push(sv));
        assert(tnew == with_new_index(t0, sv.build_id, sv.name, sv.column as int, sv.mode, sv.entries));
        assert(db@ =~= d0.update(i as int, tnew));
        assert forall|j: int, e: (i64, i64)| 0 <= j < tnew.indexes.len() && #[trigger] tnew.indexes[j].entries.contains_key(e) implies tnew.indexes[j].entries[e] < tnew.rows.len() by {
            if j < t0.indexes.len() {
                assert(tnew.indexes[j] == t0.indexes[j]);
            } else {
                assert(tnew.indexes[j] == sv);
            }
        }
        assert forall|j: int| 0 <= j < tnew.indexes.len() implies (#[trigger] tnew.indexes[j]).column < tnew.columns.len() by {
            if j < t0.indexes.len() {
                assert(tnew.indexes[j] == t0.indexes[j]);
            }
        }
        assert forall|p: int| #[trigger] live(tnew, p) implies row_at(tnew, p).len() == tnew.columns.len() by {
            assert(live(t0, p));
        }
        assert forall|q: i64| #[trigger] tnew.primary.contains_key(q) implies tnew.primary[q] < tnew.rows.len() by {
            assert(t0.primary.contains_key(q));
        }
        lemma_table_ok_parts(tnew);
        assert forall|k2: int| 0 <= k2 < db@.len() implies table_ok(#[trigger] db@[k2]) by {
            if k2 != i {
                assert(db@[k2] == d0[k2]);
            }
        }
    }
}

/// What applying a planned index build gives: its records appended up to
/// the first too large for a page, then the new index; unless the machine
/// runs out of room first.
#[verifier::opaque]
pub open spec fn build_post(
    r: Result<u64, SqlError>,
    s0: Seq<Seq<u8>>,
    s1: Seq<Seq<u8>>,
    d0: Seq<TableM>,
    d1: Seq<TableM>,
    build_id: u64,
    name: Seq<u8>,
    i: int,
    c: int,
    mode: crate::record::TieBreakMode,
    ev: Seq<EntryM>,
    room: bool,
) -> bool {
    let ps = create_index_payloads(build_id, name, d0[i], c, mode, ev);
    out_of_room(r, s0, s1, appendable(ps), room) || match too_large_from(ps, 0) {
        Some(k) => r matches Err(x) && x@ == SqlErrorM::Storage(StorageError::RecordTooLarge) && s1 == s0 + ps.subrange(0, k),
        None => s1 == s0 + ps && match fill_entries(Map::empty(), ev) {
            Some(m) => r is Ok && d1 == d0.update(i, with_new_index(d0[i], build_id, name, c, mode, m)),
            None => r matches Err(x) && x@ == SqlErrorM::InvalidStorageRecord,
        },
    }
}

proof fn lemma_build_post_append(
    ra: Result<(), SqlError>,
    r: Result<u64, SqlError>,
    pv: Seq<Seq<u8>>,
    s0: Seq<Seq<u8>>,
    s1: Seq<Seq<u8>>,
    d0: Seq<TableM>,
    d1: Seq<TableM>,
    build_id: u64,
    name: Seq<u8>,
    i: int,
    c: int,
    mode: crate::record::TieBreakMode,
    ev: Seq<EntryM>,
    room: bool,
)
    requires
        pv == create_index_payloads(build_id, name, d0[i], c, mode, ev),
        ra matches Err(e) && r == Err::<u64, SqlError>(e),
        out_of_room(ra, s0, s1, appendable(pv), room) || match too_large_from(pv, 0) {
            Some(k) => ra matches Err(x) && x@ == SqlErrorM::Storage(StorageError::RecordTooLarge) && s1 == s0 + pv.subrange(0, k),
            None => ra is Ok && s1 == s0 + pv,
        },
    ensures
        build_post(r, s0, s1, d0, d1, build_id, name, i, c, mode, ev, room),
{
    reveal(build_post);
}

proof fn lemma_build_post_filled(
    r: Result<u64, SqlError>,
    pv: Seq<Seq<u8>>,
    s0: Seq<Seq<u8>>,
    s1: Seq<Seq<u8>>,
    d0: Seq<TableM>,
    d1: Seq<TableM>,
    build_id: u64,
    name: Seq<u8>,
    i: int,
    c: int,
    mode: crate::record::TieBreakMode,
    ev: Seq<EntryM>,
    room: bool,
)
    requires
        pv == create_index_payloads(build_id, name, d0[i], c, mode, ev),
        too_large_from(pv, 0) is None,
        s1 == s0 + pv,
        match fill_entries(Map::empty(), ev) {
            Some(m) => r is Ok && d1 == d0.update(i, with_new_index(d0[i], build_id, name, c, mode, m)),
            None => r matches Err(x) && x@ == SqlErrorM::InvalidStorageRecord,
        },
    ensures
        build_post(r, s0, s1, d0, d1, build_id, name, i, c, mode, ev, room),
{
    reveal(build_post);
}

proof fn lemma_append_ok(ra: Result<(), SqlError>, pv: Seq<Seq<u8>>, s0: Seq<Seq<u8>>, s1: Seq<Seq<u8>>, room: bool)
    requires
        ra is Ok,
        out_of_room(ra, s0, s1, appendable(pv), room) || match too_large_from(pv, 0) {
            Some(k) => ra matches Err(x) && x@ == SqlErrorM::Storage(StorageError::RecordTooLarge) && s1 == s0 + pv.subrange(0, k),
            None => ra is Ok && s1 == s0 + pv,
        },
    ensures
        too_large_from(pv, 0) is None,
        s1 == s0 + pv,
{
}

/// Appends the records of a planned index build and adds the index.
#[verifier::spinoff_prover]
fn apply_index_build(
    store: &mut PageStore,
    db: &mut Database,
    i: usize,
    c: usize,
    mode: crate::record::TieBreakMode,
    state: crate::schema::IndexState,
    entries: Vec<crate::record::EmbeddedIndexEntry>,
) -> (r: Result<u64, SqlError>)
    requires
        old(store).wf(),
        db_ok(old(db)@),
        i < old(db)@.len(),
        c < old(db)@[i as int].columns.len(),
        state@.column == c,
        state@.mode == mode,
        state@.entries == Map::<(i64, i64), usize>::empty(),
        forall|k: int| 0 <= k < entries@.len() ==> (#[trigger] entries_view(entries@)[k]).row_position < old(db)@[i as int].rows.len(),
    ensures
        final(store).wf(),
        r is Ok ==> db_ok(final(db)@),
        r is Err ==> final(db)@ == old(db)@,
        build_post(r, old(store).records(), final(store).records(), old(db)@, final(db)@, state@.build_id, state@.name,
            i as int, c as int, mode, entries_view(entries@), final(store).append_fits()),
{
    let ghost d0 = db@;
    let ghost ev = entries_view(entries@);
    let ghost s0 = store.records();
    let ghost sv0 = state@;
    let mut state = state;
    assert(d0[i as int] == db.tables@[i as int]@);
    let meta = crate::record::encode_secondary_metadata_record(
        state.build_id,
        state.name.as_slice(),
        db.tables[i].name.as_slice(),
        c as u16,
        mode,
    );
    let ps = index_build_records(&entries, meta);
    let ghost pv = ps@.map_values(|p: Vec<u8>| p@);
    assert(pv =~= create_index_payloads(sv0.build_id, sv0.name, d0[i as int], c as int, mode, ev));
    let ra = append_all(store, &ps);
    match ra {
        Ok(()) => {},
        Err(e) => {
            let r = Err(e);
            proof {
                lemma_build_post_append(ra, r, pv, s0, store.records(), d0, db@, sv0.build_id, sv0.name, i as int, c as int, mode, ev, store.append_fits());
            }
            return r;
        },
    }
    proof {
        lemma_append_ok(ra, pv, s0, store.records(), store.append_fits());
    }
    match fill_index(&mut state, &entries) {
        Ok(()) => {},
        Err(e) => {
            let r = Err(e);
            proof {
                lemma_build_post_filled(r, pv, s0, store.records(), d0, db@, sv0.build_id, sv0.name, i as int, c as int, mode, ev, store.append_fits());
            }
            return r;
        },
    }
    proof {
        let t0 = d0[i as int];
        lemma_table_ok_parts(t0);
        assert(db.tables@[i as int].rows.len() == t0.rows.len());
        lemma_fill_below(Map::empty(), ev, t0.rows.len() as int);
        store.lemma_record_count_fits();
        lemma_too_large_from(pv, 0);
    }
    let n = entries.len();
    install_index(db, i, state);
    assert(n + 1 <= u64::MAX);
    let r = Ok(n as u64 + 1);
    proof {
        lemma_build_post_filled(r, pv, s0, store.records(), d0, db@, sv0.build_id, sv0.name, i as int, c as int, mode, ev, store.append_fits());
    }
    r
}

proof fn lemma_create_index_post(
    r: Result<u64, SqlError>,
    s0: Seq<Seq<u8>>,
    s1: Seq<Seq<u8>>,
    d0: Seq<TableM>,
    d1: Seq<TableM>,
    build_id: u64,
    index: Seq<u8>,
    table: Seq<u8>,
    column: Seq<u8>,
    i: int,
    c: int,
    mode: crate::record::TieBreakMode,
    es: Seq<EntryM>,
    room: bool,
)
    requires
        create_index_check(d0, build_id, index, table, column) == Ok::<_, SqlErrorM>((i, c, mode, es)),
        build_post(r, s0, s1, d0, d1, build_id, index, i, c, mode, es, room),
    ensures
        create_index_post(r, s0, s1, d0, d1, build_id, index, table, column, room),
{
    reveal(create_index_outcome);
    reveal(build_post);
}

/// `CREATE INDEX`: checks the statement, appends one record per entry of
/// the existing rows and then the metadata record, and adds the index; the
/// number of records appended.
pub fn execute_create_index(
    store: &mut PageStore,
    db: &mut Database,
    build_id: u64,
    index: Vec<u8>,
    table: &[u8],
    column: &[u8],
) -> (r: Result<u64, SqlError>)
    requires
        old(store).wf(),
        db_ok(old(db)@),
    ensures
        final(store).wf(),
        r is Ok ==> db_ok(final(db)@),
        r is Err ==> final(db)@ == old(db)@,
        create_index_post(r, old(store).records(), final(store).records(), old(db)@, final(db)@, build_id, index@, table@, column@,
            final(store).append_fits()),
        create_index_check(old(db)@, build_id, index@, table@, column@) is Err ==> *final(store) == *old(store),
{
    let ghost d0 = db@;
    let ghost iv = index@;
    let ghost s0 = store.records();
    match plan_create_index(db, build_id, index, table, column) {
        Err(e) => {
            proof {
                reveal(create_index_outcome);
                assert(s0 + Seq::<Seq<u8>>::empty() =~= s0);
            }
            Err(e)
        },
        Ok((i, c, mode, state, entries)) => {
            let ghost ev = entries_view(entries@);
            let r = apply_index_build(store, db, i, c, mode, state, entries);
            proof {
                lemma_create_index_post(r, s0, store.records(), d0, db@, build_id, iv, table@, column@, i as int, c as int, mode, ev, store.append_fits());
            }
            r
        },
    }
}

proof fn lemma_fill_none_after(m: Map<(i64, i64), usize>, es: Seq<EntryM>, k: int)
    requires
        0 <= k <= es.len(),
        fill_entries(m, es.subrange(0, k)) is None,
    ensures
        fill_entries(m, es) is None,
    decreases es.len() - k,
{
    if k < es.len() {
        assert(es.subrange(0, k + 1).drop_last() =~= es.subrange(0, k));
        lemma_fill_none_after(m, es, k + 1);
    } else {
        assert(es.subrange(0, k) =~= es);
    }
}

} // verus!
