//! Rebuilding a database from its stored records: each record is decoded
//! and checked against the tables built so far, index entries wait for the
//! metadata record of their build, and at the end every index must match
//! what its table's rows give.
use crate::record::{
    Column, ColumnM, ColumnType, EmbeddedIndexEntry, EntryM, LogicalRecord, RecordM, TieBreakMode, Value, ValueM,
    columns_view, decode_spec, entries_keyed, entries_view, values_view,
};
use crate::index::PrimaryIndex;
use crate::rows::{
    add_entries, append_loaded_row, append_row_spec, apply_delete_to_table, apply_update_to_table, delete_row_spec,
    entries_below, expected_entries, expected_entries_for_row, insert_entries, lemma_entries_keep, lemma_table_ok_parts,
    update_row_spec,
};
use crate::schema::{
    Database, IndexM, IndexState, Table, TableM, db_ok, find_table, find_table_index, has_index_named, indexes_view,
    live, row_at, rows_view, same_entries_in_any_order, same_entry_lists, same_name, table_ok, tables_view,
    validate_values_for_table, values_check,
};
use crate::statements::{
    backfill, backfill_entries, fill_entries, fill_index, install_index, lemma_backfill_below, lemma_fill_below,
    with_new_index,
};
use crate::index::SecondaryIndex;
use crate::schema::{contains_index_name, entry_key, entry_keys};
use crate::page::rec_view;
use crate::record::{decode_record, record_keyed};
use crate::sql::SqlError;
use crate::text::{eq_ignore_ascii_case, is_valid_identifier, valid_identifier};
use vstd::prelude::*;

verus! {

/// Which invariant a store's records break.
#[derive(Debug, Clone, Copy, PartialEq, Eq, Structural)]
pub enum CheckLabel {
    StorageRecordReadability,
    CatalogRecordInvariant,
    PrimaryIndex,
    SecondaryIndex,
}

/// The name of an invariant, as the check reports it.
pub open spec fn label_text(l: CheckLabel) -> Seq<char> {
    match l {
        CheckLabel::StorageRecordReadability => "storage record readability"@,
        CheckLabel::CatalogRecordInvariant => "catalog/record invariant"@,
        CheckLabel::PrimaryIndex => "primary index"@,
        CheckLabel::SecondaryIndex => "secondary index"@,
    }
}

impl CheckLabel {
    /// The name of the invariant.
    pub fn text(self) -> (r: &'static str)
        ensures
            r@ == label_text(self),
    {
        match self {
            CheckLabel::StorageRecordReadability => "storage record readability",
            CheckLabel::CatalogRecordInvariant => "catalog/record invariant",
            CheckLabel::PrimaryIndex => "primary index",
            CheckLabel::SecondaryIndex => "secondary index",
        }
    }
}

/// The columns from `j` on are valid names, distinct from every earlier
/// one, with at most one primary key, of type `INT`: the primary key
/// column, given `pk` before `j`.
pub open spec fn catalog_columns(cs: Seq<ColumnM>, j: int, pk: Option<usize>) -> Option<Option<usize>>
    decreases cs.len() - j,
{
    if j < 0 || j >= cs.len() {
        Some(pk)
    } else if !valid_identifier(cs[j].name) || exists|i: int| 0 <= i < j && same_name(#[trigger] cs[i].name, cs[j].name) {
        None
    } else if cs[j].is_primary_key {
        if cs[j].column_type != ColumnType::Int || pk is Some {
            None
        } else {
            catalog_columns(cs, j + 1, Some(j as usize))
        }
    } else {
        catalog_columns(cs, j + 1, pk)
    }
}

/// A catalog record's invariants: a valid table name and at least one
/// column; the primary key column, if any.
pub open spec fn catalog_ok(table: Seq<u8>, cs: Seq<ColumnM>) -> Option<Option<usize>> {
    if !valid_identifier(table) || cs.len() == 0 {
        None
    } else {
        catalog_columns(cs, 0, None)
    }
}

/// The row's primary key is already in the table, or is not an integer.
pub open spec fn key_taken(t: TableM, vs: Seq<ValueM>) -> bool {
    match t.pk {
        None => false,
        Some(c) => match vs[c as int] {
            ValueM::Int(k) => t.primary.contains_key(k),
            ValueM::Text(_) => true,
        },
    }
}

/// An entry belongs to the build `build_id` of the index named `name`.
pub open spec fn same_build(e: EntryM, name: Seq<u8>, build_id: u64) -> bool {
    e.build_id == build_id && same_name(e.index_name, name)
}

/// The waiting entries of one build, in the order they came.
pub open spec fn group_of(es: Seq<EntryM>, name: Seq<u8>, build_id: u64) -> Seq<EntryM>
    decreases es.len(),
{
    if es.len() == 0 {
        Seq::empty()
    } else if same_build(es.last(), name, build_id) {
        group_of(es.drop_last(), name, build_id).push(es.last())
    } else {
        group_of(es.drop_last(), name, build_id)
    }
}

/// The waiting entries of every other build, in the order they came.
pub open spec fn without_group(es: Seq<EntryM>, name: Seq<u8>, build_id: u64) -> Seq<EntryM>
    decreases es.len(),
{
    if es.len() == 0 {
        Seq::empty()
    } else if same_build(es.last(), name, build_id) {
        without_group(es.drop_last(), name, build_id)
    } else {
        without_group(es.drop_last(), name, build_id).push(es.last())
    }
}

/// A waiting entry belongs to a build that has already been committed.
pub open spec fn stale_pending(db: Seq<TableM>, pending: Seq<EntryM>) -> bool {
    exists|k: int, i: int, j: int|
        0 <= k < pending.len() && 0 <= i < db.len() && 0 <= j < db[i].indexes.len() && same_build(
            #[trigger] pending[k],
            #[trigger] db[i].indexes[j].name,
            db[i].indexes[j].build_id,
        )
}

/// The index holds exactly what its table's rows give.
pub open spec fn index_rebuilt(x: IndexM, t: TableM) -> bool {
    match backfill(x, t, t.rows.len() as int) {
        None => false,
        Some(es) => fill_entries(Map::empty(), es) == Some(x.entries),
    }
}

/// Every index of every table holds exactly what its table's rows give.
pub open spec fn indexes_consistent(db: Seq<TableM>) -> bool {
    forall|i: int, j: int| 0 <= i < db.len() && 0 <= j < db[i].indexes.len() ==> index_rebuilt(#[trigger] db[i].indexes[j], db[i])
}

/// A catalog record adds a new, empty table.
pub open spec fn replay_catalog(db: Seq<TableM>, table: Seq<u8>, columns: Seq<ColumnM>) -> Result<Seq<TableM>, CheckLabel> {
    match catalog_ok(table, columns) {
        None => Err(CheckLabel::CatalogRecordInvariant),
        Some(pk) => if find_table(db, table) is Some {
            Err(CheckLabel::CatalogRecordInvariant)
        } else {
            Ok(
                db.push(
                    TableM { name: table, columns, rows: Seq::empty(), pk, primary: Map::empty(), indexes: Seq::empty() },
                ),
            )
        },
    }
}

/// A row record adds a row to a table that has no secondary index.
pub open spec fn replay_row(db: Seq<TableM>, table: Seq<u8>, values: Seq<ValueM>) -> Result<Seq<TableM>, CheckLabel> {
    match find_table(db, table) {
        None => Err(CheckLabel::CatalogRecordInvariant),
        Some(i) => if db[i].indexes.len() > 0 {
            Err(CheckLabel::SecondaryIndex)
        } else if values_check(db[i], values) is Err {
            Err(CheckLabel::CatalogRecordInvariant)
        } else if key_taken(db[i], values) {
            Err(CheckLabel::PrimaryIndex)
        } else {
            match append_row_spec(db[i], values) {
                None => Err(CheckLabel::CatalogRecordInvariant),
                Some(t2) => Ok(db.update(i, t2)),
            }
        },
    }
}

/// A metadata record commits an index build: the table's rows must give
/// exactly the entries of the build that are waiting, which then fill the
/// new index and stop waiting.
pub open spec fn replay_metadata(
    db: Seq<TableM>,
    pending: Seq<EntryM>,
    build_id: u64,
    index_name: Seq<u8>,
    table_name: Seq<u8>,
    indexed_column: u16,
    mode: TieBreakMode,
) -> Result<(Seq<TableM>, Seq<EntryM>), CheckLabel> {
    let si = CheckLabel::SecondaryIndex;
    if has_index_named(db, index_name) {
        Err(si)
    } else {
        match find_table(db, table_name) {
            None => Err(si),
            Some(i) => {
                let t = db[i];
                let c = indexed_column as int;
                if c >= t.columns.len() || t.columns[c].column_type != ColumnType::Int || (mode == TieBreakMode::PrimaryKey
                    && t.pk is None) {
                    Err(si)
                } else {
                    let group = group_of(pending, index_name, build_id);
                    let x = IndexM { build_id, name: index_name, column: c as usize, mode, entries: Map::empty() };
                    match backfill(x, t, t.rows.len() as int) {
                        None => Err(si),
                        Some(es) => if !same_entry_lists(group, es) {
                            Err(si)
                        } else {
                            match fill_entries(Map::empty(), group) {
                                None => Err(si),
                                Some(m) => Ok(
                                    (
                                        db.update(i, with_new_index(t, build_id, index_name, c, mode, m)),
                                        without_group(pending, index_name, build_id),
                                    ),
                                ),
                            }
                        },
                    }
                }
            },
        }
    }
}

/// An indexed row record adds a row, with its entries, to a table that has
/// secondary indexes; the entries it carries must be those the row gives.
pub open spec fn replay_indexed_row(db: Seq<TableM>, table: Seq<u8>, values: Seq<ValueM>, entries: Seq<EntryM>) -> Result<
    Seq<TableM>,
    CheckLabel,
> {
    let si = CheckLabel::SecondaryIndex;
    match find_table(db, table) {
        None => Err(CheckLabel::CatalogRecordInvariant),
        Some(i) => {
            let t = db[i];
            if t.indexes.len() == 0 {
                Err(si)
            } else if values_check(t, values) is Err {
                Err(CheckLabel::CatalogRecordInvariant)
            } else if key_taken(t, values) {
                Err(CheckLabel::PrimaryIndex)
            } else {
                match expected_entries(t, values, t.rows.len() as int) {
                    None => Err(si),
                    Some(es) => if !same_entry_lists(entries, es) {
                        Err(si)
                    } else {
                        match add_entries(t.indexes, es, t.rows.len() as usize) {
                            None => Err(si),
                            Some(xs) => match append_row_spec(TableM { indexes: xs, ..t }, values) {
                                None => Err(CheckLabel::CatalogRecordInvariant),
                                Some(t2) => Ok(db.update(i, t2)),
                            },
                        }
                    },
                }
            }
        },
    }
}

/// An update record replaces the row in a slot; the entries it carries
/// must be those the new row gives.
pub open spec fn replay_update(
    db: Seq<TableM>,
    table: Seq<u8>,
    row_position: u64,
    values: Seq<ValueM>,
    entries: Seq<EntryM>,
) -> Result<Seq<TableM>, CheckLabel> {
    let si = CheckLabel::SecondaryIndex;
    match find_table(db, table) {
        None => Err(CheckLabel::CatalogRecordInvariant),
        Some(i) => {
            let t = db[i];
            let p = row_position as int;
            if values_check(t, values) is Err {
                Err(si)
            } else {
                match expected_entries(t, values, p) {
                    None => Err(si),
                    Some(es) => if !same_entry_lists(entries, es) {
                        Err(si)
                    } else {
                        match update_row_spec(t, p, values, es) {
                            None => Err(si),
                            Some(t2) => Ok(db.update(i, t2)),
                        }
                    },
                }
            }
        },
    }
}

/// A delete record empties the slot of a row.
pub open spec fn replay_delete(db: Seq<TableM>, table: Seq<u8>, row_position: u64) -> Result<Seq<TableM>, CheckLabel> {
    match find_table(db, table) {
        None => Err(CheckLabel::CatalogRecordInvariant),
        Some(i) => match delete_row_spec(db[i], row_position as int) {
            None => Err(CheckLabel::SecondaryIndex),
            Some(t2) => Ok(db.update(i, t2)),
        },
    }
}

/// A change to the tables that leaves the waiting entries as they are.
pub open spec fn keep_pending(r: Result<Seq<TableM>, CheckLabel>, pending: Seq<EntryM>) -> Result<
    (Seq<TableM>, Seq<EntryM>),
    CheckLabel,
> {
    match r {
        Ok(db) => Ok((db, pending)),
        Err(l) => Err(l),
    }
}

/// What one record does to the tables built so far and to the entries
/// waiting for their build's metadata; or the invariant it breaks.
pub open spec fn replay_step(db: Seq<TableM>, pending: Seq<EntryM>, rec: RecordM) -> Result<
    (Seq<TableM>, Seq<EntryM>),
    CheckLabel,
> {
    match rec {
        RecordM::Catalog { table, columns } => keep_pending(replay_catalog(db, table, columns), pending),
        RecordM::Row { table, values } => keep_pending(replay_row(db, table, values), pending),
        RecordM::Entry { entry } => Ok((db, pending.push(entry))),
        RecordM::Metadata { build_id, index_name, table_name, indexed_column, tie_break_mode } => replay_metadata(
            db,
            pending,
            build_id,
            index_name,
            table_name,
            indexed_column,
            tie_break_mode,
        ),
        RecordM::IndexedRow { table, values, entries } => keep_pending(replay_indexed_row(db, table, values, entries), pending),
        RecordM::UpdateRow { table, row_position, values, entries } => keep_pending(
            replay_update(db, table, row_position, values, entries),
            pending,
        ),
        RecordM::DeleteRow { table, row_position } => keep_pending(replay_delete(db, table, row_position), pending),
    }
}

/// The records replayed in order from an empty database: the tables and
/// the entries still waiting; or the first invariant broken, with a record
/// that cannot be decoded breaking readability.
pub open spec fn replay_prefix(records: Seq<Seq<u8>>) -> Result<(Seq<TableM>, Seq<EntryM>), CheckLabel>
    decreases records.len(),
{
    if records.len() == 0 {
        Ok((Seq::empty(), Seq::empty()))
    } else {
        match replay_prefix(records.drop_last()) {
            Err(l) => Err(l),
            Ok((db, pending)) => match decode_spec(records.last()) {
                None => Err(CheckLabel::StorageRecordReadability),
                Some(rec) => replay_step(db, pending, rec),
            },
        }
    }
}

/// The database the records describe;
/// entries left waiting for a build that committed, or an index that does
/// not match its rows, break the secondary index invariant.
pub open spec fn replay_spec(records: Seq<Seq<u8>>) -> Result<Seq<TableM>, CheckLabel> {
    match replay_prefix(records) {
        Err(l) => Err(l),
        Ok((db, pending)) => if stale_pending(db, pending) || !indexes_consistent(db) {
            Err(CheckLabel::SecondaryIndex)
        } else {
            Ok(db)
        },
    }
}

/// Every table has room for one more row slot.
pub open spec fn rows_room(db: Seq<TableM>) -> bool {
    forall|k: int| 0 <= k < db.len() ==> (#[trigger] db[k]).rows.len() < usize::MAX
}

proof fn lemma_catalog_columns(cs: Seq<ColumnM>, j: int, pk: Option<usize>)
    requires
        0 <= j,
        pk matches Some(c) ==> c < cs.len(),
    ensures
        catalog_columns(cs, j, pk) matches Some(Some(c)) ==> c < cs.len(),
    decreases cs.len() - j,
{
    if j < cs.len() {
        lemma_catalog_columns(cs, j + 1, pk);
        lemma_catalog_columns(cs, j + 1, Some(j as usize));
    }
}

/// Checks a catalog record's invariants: the primary key column, if any.
#[verifier::loop_isolation(false)]
fn catalog_invariants(table: &[u8], columns: &Vec<Column>) -> (r: Option<Option<usize>>)
    ensures
        r == catalog_ok(table@, columns_view(columns@)),
        r matches Some(Some(c)) ==> c < columns@.len(),
{
    let ghost cs = columns_view(columns@);
    proof {
        lemma_catalog_columns(cs, 0, None);
    }
    if !is_valid_identifier(table) || columns.len() == 0 {
        return None;
    }
    let mut pk: Option<usize> = None;
    let n = columns.len();
    let mut j: usize = 0;
    while j < n
        invariant
            n == columns@.len(),
            cs == columns_view(columns@),
            j <= n,
            pk matches Some(c) ==> c < n,
            catalog_columns(cs, j as int, pk) == catalog_columns(cs, 0, None),
        decreases n - j,
    {
        assert(cs[j as int] == columns@[j as int]@);
        if !is_valid_identifier(columns[j].name.as_slice()) {
            return None;
        }
        let mut i: usize = 0;
        while i < j
            invariant
                n == columns@.len(),
                cs == columns_view(columns@),
                i <= j < n,
                forall|a: int| 0 <= a < i ==> !same_name(#[trigger] cs[a].name, cs[j as int].name),
            decreases j - i,
        {
            assert(cs[i as int] == columns@[i as int]@);
            if eq_ignore_ascii_case(columns[i].name.as_slice(), columns[j].name.as_slice()) {
                assert(same_name(cs[i as int].name, cs[j as int].name));
                assert(catalog_columns(cs, j as int, pk) is None);
                return None;
            }
            i = i + 1;
        }
        if columns[j].is_primary_key {
            if columns[j].column_type != ColumnType::Int || pk.is_some() {
                return None;
            }
            pk = Some(j);
        }
        j = j + 1;
    }
    Some(pk)
}

/// Whether the row's primary key is already in the table, or is not an
/// integer.
fn key_is_taken(t: &Table, values: &Vec<Value>) -> (r: bool)
    requires
        t.primary_key_column matches Some(c) ==> c < values@.len(),
    ensures
        r == key_taken(t@, values_view(values@)),
{
    match t.primary_key_column {
        None => false,
        Some(c) => {
            assert(values_view(values@)[c as int] == values@[c as int]@);
            match &values[c] {
                Value::Int(k) => t.primary_index.get(*k).is_some(),
                Value::Text(_) => true,
            }
        },
    }
}

proof fn lemma_db_update(d: Seq<TableM>, i: int, t: TableM)
    requires
        db_ok(d),
        0 <= i < d.len(),
        table_ok(t),
    ensures
        db_ok(d.update(i, t)),
{
    assert forall|k: int| 0 <= k < d.update(i, t).len() implies table_ok(#[trigger] d.update(i, t)[k]) by {
        if k != i {
            assert(d.update(i, t)[k] == d[k]);
        }
    }
}

proof fn lemma_put_back(v: Seq<Table>, i: int, t: Table)
    requires
        0 <= i < v.len(),
    ensures
        tables_view(v.remove(i).insert(i, t)) == tables_view(v).update(i, t@),
{
    assert(tables_view(v.remove(i).insert(i, t)) =~= tables_view(v).update(i, t@));
}

fn exec_replay_catalog(db: &mut Database, table: Vec<u8>, columns: Vec<Column>) -> (r: Result<(), CheckLabel>)
    requires
        db_ok(old(db)@),
    ensures
        match replay_catalog(old(db)@, table@, columns_view(columns@)) {
            Ok(d) => r is Ok && final(db)@ == d,
            Err(l) => r == Err::<(), CheckLabel>(l),
        },
        r is Ok ==> db_ok(final(db)@),
{
    let ghost d0 = db@;
    let pk = match catalog_invariants(table.as_slice(), &columns) {
        None => {
            return Err(CheckLabel::CatalogRecordInvariant);
        },
        Some(pk) => pk,
    };
    if find_table_index(db, table.as_slice()).is_some() {
        return Err(CheckLabel::CatalogRecordInvariant);
    }
    let t = Table {
        name: table,
        columns,
        rows: Vec::new(),
        primary_key_column: pk,
        primary_index: PrimaryIndex::new(),
        secondary_indexes: Vec::new(),
    };
    let ghost tv = t@;
    proof {
        assert(tv.rows =~= Seq::<Option<Seq<ValueM>>>::empty());
        assert(tv.indexes =~= Seq::<IndexM>::empty());
        lemma_table_ok_parts(tv);
    }
    db.tables.push(t);
    proof {
        assert(db@ =~= d0.push(tv));
        assert forall|k: int| 0 <= k < db@.len() implies table_ok(#[trigger] db@[k]) by {
            if k < d0.len() {
                assert(db@[k] == d0[k]);
            }
        }
    }
    Ok(())
}

proof fn lemma_values_len(t: TableM, vs: Seq<ValueM>)
    requires
        values_check(t, vs) is Ok,
    ensures
        vs.len() == t.columns.len(),
{
}

fn exec_replay_row(db: &mut Database, table: &[u8], values: Vec<Value>) -> (r: Result<(), CheckLabel>)
    requires
        db_ok(old(db)@),
        rows_room(old(db)@),
    ensures
        match replay_row(old(db)@, table@, values_view(values@)) {
            Ok(d) => r is Ok && final(db)@ == d,
            Err(l) => r == Err::<(), CheckLabel>(l),
        },
        r is Ok ==> db_ok(final(db)@),
{
    let ghost d0 = db@;
    let ghost vv = values_view(values@);
    let i = match find_table_index(db, table) {
        None => {
            return Err(CheckLabel::CatalogRecordInvariant);
        },
        Some(i) => i,
    };
    assert(d0[i as int] == db.tables@[i as int]@);
    assert(table_ok(d0[i as int]));
    if db.tables[i].secondary_indexes.len() > 0 {
        return Err(CheckLabel::SecondaryIndex);
    }
    if validate_values_for_table(&db.tables[i], &values).is_err() {
        return Err(CheckLabel::CatalogRecordInvariant);
    }
    proof {
        lemma_values_len(d0[i as int], vv);
    }
    if key_is_taken(&db.tables[i], &values) {
        return Err(CheckLabel::PrimaryIndex);
    }
    let ghost v0 = db.tables@;
    let mut t = db.tables.remove(i);
    assert(t@ == d0[i as int]);
    let res = append_loaded_row(&mut t, values);
    let ghost tv = t@;
    db.tables.insert(i, t);
    proof {
        lemma_put_back(v0, i as int, t);
    }
    match res {
        Ok(()) => {
            proof {
                lemma_db_update(d0, i as int, tv);
            }
            Ok(())
        },
        Err(_) => Err(CheckLabel::CatalogRecordInvariant),
    }
}

fn exec_replay_delete(db: &mut Database, table: &[u8], row_position: u64) -> (r: Result<(), CheckLabel>)
    requires
        db_ok(old(db)@),
    ensures
        match replay_delete(old(db)@, table@, row_position) {
            Ok(d) => r is Ok && final(db)@ == d,
            Err(l) => r == Err::<(), CheckLabel>(l),
        },
        r is Ok ==> db_ok(final(db)@),
{
    let ghost d0 = db@;
    let i = match find_table_index(db, table) {
        None => {
            return Err(CheckLabel::CatalogRecordInvariant);
        },
        Some(i) => i,
    };
    assert(d0[i as int] == db.tables@[i as int]@);
    assert(table_ok(d0[i as int]));
    if row_position >= db.tables[i].rows.len() as u64 {
        assert(!live(d0[i as int], row_position as int));
        return Err(CheckLabel::SecondaryIndex);
    }
    let ghost v0 = db.tables@;
    let mut t = db.tables.remove(i);
    assert(t@ == d0[i as int]);
    let res = apply_delete_to_table(&mut t, row_position as usize);
    let ghost tv = t@;
    db.tables.insert(i, t);
    proof {
        lemma_put_back(v0, i as int, t);
    }
    match res {
        Ok(()) => {
            proof {
                lemma_db_update(d0, i as int, tv);
            }
            Ok(())
        },
        Err(_) => Err(CheckLabel::SecondaryIndex),
    }
}

fn exec_replay_update(db: &mut Database, table: &[u8], row_position: u64, values: Vec<Value>, entries: &Vec<EmbeddedIndexEntry>) -> (r: Result<
    (),
    CheckLabel,
>)
    requires
        db_ok(old(db)@),
        entries_keyed(entries@),
    ensures
        match replay_update(old(db)@, table@, row_position, values_view(values@), entries_view(entries@)) {
            Ok(d) => r is Ok && final(db)@ == d,
            Err(l) => r == Err::<(), CheckLabel>(l),
        },
        r is Ok ==> db_ok(final(db)@),
{
    let ghost d0 = db@;
    let ghost vv = values_view(values@);
    let i = match find_table_index(db, table) {
        None => {
            return Err(CheckLabel::CatalogRecordInvariant);
        },
        Some(i) => i,
    };
    assert(d0[i as int] == db.tables@[i as int]@);
    assert(table_ok(d0[i as int]));
    if validate_values_for_table(&db.tables[i], &values).is_err() {
        return Err(CheckLabel::SecondaryIndex);
    }
    proof {
        lemma_values_len(d0[i as int], vv);
        lemma_table_ok_parts(d0[i as int]);
    }
    if row_position >= db.tables[i].rows.len() as u64 {
        assert(!live(d0[i as int], row_position as int));
        return Err(CheckLabel::SecondaryIndex);
    }
    let p = row_position as usize;
    let expected = match expected_entries_for_row(&db.tables[i], &values, p) {
        None => {
            return Err(CheckLabel::SecondaryIndex);
        },
        Some(e) => e,
    };
    if !same_entries_in_any_order(entries, &expected) {
        return Err(CheckLabel::SecondaryIndex);
    }
    let ghost v0 = db.tables@;
    let mut t = db.tables.remove(i);
    assert(t@ == d0[i as int]);
    let res = apply_update_to_table(&mut t, p, values, &expected);
    let ghost tv = t@;
    db.tables.insert(i, t);
    proof {
        lemma_put_back(v0, i as int, t);
    }
    match res {
        Ok(()) => {
            proof {
                lemma_db_update(d0, i as int, tv);
            }
            Ok(())
        },
        Err(_) => Err(CheckLabel::SecondaryIndex),
    }
}

proof fn lemma_append_fresh_key(t: TableM, vs: Seq<ValueM>)
    requires
        !key_taken(t, vs),
    ensures
        append_row_spec(t, vs) is Some,
{
}

fn exec_replay_indexed_row(db: &mut Database, table: &[u8], values: Vec<Value>, entries: &Vec<EmbeddedIndexEntry>) -> (r: Result<
    (),
    CheckLabel,
>)
    requires
        db_ok(old(db)@),
        rows_room(old(db)@),
        entries_keyed(entries@),
    ensures
        match replay_indexed_row(old(db)@, table@, values_view(values@), entries_view(entries@)) {
            Ok(d) => r is Ok && final(db)@ == d,
            Err(l) => r == Err::<(), CheckLabel>(l),
        },
        r is Ok ==> db_ok(final(db)@),
{
    let ghost d0 = db@;
    let ghost vv = values_view(values@);
    let i = match find_table_index(db, table) {
        None => {
            return Err(CheckLabel::CatalogRecordInvariant);
        },
        Some(i) => i,
    };
    let ghost t0 = d0[i as int];
    assert(t0 == db.tables@[i as int]@);
    assert(table_ok(t0));
    if db.tables[i].secondary_indexes.len() == 0 {
        return Err(CheckLabel::SecondaryIndex);
    }
    if validate_values_for_table(&db.tables[i], &values).is_err() {
        return Err(CheckLabel::CatalogRecordInvariant);
    }
    proof {
        lemma_values_len(t0, vv);
        lemma_table_ok_parts(t0);
    }
    if key_is_taken(&db.tables[i], &values) {
        return Err(CheckLabel::PrimaryIndex);
    }
    let p = db.tables[i].rows.len();
    let expected = match expected_entries_for_row(&db.tables[i], &values, p) {
        None => {
            return Err(CheckLabel::SecondaryIndex);
        },
        Some(e) => e,
    };
    if !same_entries_in_any_order(entries, &expected) {
        return Err(CheckLabel::SecondaryIndex);
    }
    let ghost v0 = db.tables@;
    let mut t = db.tables.remove(i);
    assert(t@ == t0);
    match insert_entries(&mut t.secondary_indexes, &expected, p) {
        Ok(()) => {},
        Err(_) => {
            return Err(CheckLabel::SecondaryIndex);
        },
    }
    let ghost t1 = t@;
    proof {
        lemma_entries_keep(t0.indexes, entries_view(expected@), p, t0.rows.len() as int + 1);
        assert(t1 == TableM { indexes: t1.indexes, ..t0 });
        assert forall|j: int| 0 <= j < t1.indexes.len() implies (#[trigger] t1.indexes[j]).column < t1.columns.len() by {
            assert(t1.indexes[j].column == t0.indexes[j].column);
        }
        assert(entries_below(t0.indexes, t0.rows.len() as int + 1));
        lemma_append_fresh_key(t1, vv);
    }
    let res = append_loaded_row(&mut t, values);
    let ghost t2 = t@;
    db.tables.insert(i, t);
    proof {
        lemma_put_back(v0, i as int, t);
    }
    match res {
        Ok(()) => {
            proof {
                assert(entries_below(t1.indexes, t0.rows.len() as int + 1));
                assert(t2.indexes == t1.indexes);
                assert(t2.rows == t0.rows.push(Some(vv)));
                assert forall|q: int| #[trigger] live(t2, q) implies row_at(t2, q).len() == t2.columns.len() by {
                    if q < t0.rows.len() {
                        assert(t2.rows[q] == t0.rows[q]);
                        assert(live(t0, q));
                    }
                }
                assert forall|k: i64| #[trigger] t2.primary.contains_key(k) implies t2.primary[k] < t2.rows.len() by {
                    if t0.primary.contains_key(k) {
                        assert(t0.primary[k] < t0.rows.len());
                    }
                }
                lemma_table_ok_parts(t2);
                lemma_db_update(d0, i as int, t2);
            }
            Ok(())
        },
        Err(_) => Err(CheckLabel::CatalogRecordInvariant),
    }
}

fn same_build_exec(e: &EmbeddedIndexEntry, name: &[u8], build_id: u64) -> (r: bool)
    ensures
        r == same_build(e@, name@, build_id),
{
    e.build_id == build_id && eq_ignore_ascii_case(e.index_name.as_slice(), name)
}

/// The entries in reverse order, so that popping gives them in order.
fn reversed_entries(v: Vec<EmbeddedIndexEntry>) -> (r: Vec<EmbeddedIndexEntry>)
    ensures
        r@.len() == v@.len(),
        forall|q: int| 0 <= q < v@.len() ==> #[trigger] r@[q] == v@[v@.len() - 1 - q],
{
    let mut v = v;
    let ghost v0 = v@;
    let mut r: Vec<EmbeddedIndexEntry> = Vec::new();
    while v.len() > 0
        invariant
            v@.len() + r@.len() == v0.len(),
            v@ == v0.subrange(0, v@.len() as int),
            forall|q: int| 0 <= q < r@.len() ==> #[trigger] r@[q] == v0[v0.len() - 1 - q],
        decreases v@.len(),
    {
        let x = v.pop().unwrap();
        assert(v@ =~= v0.subrange(0, v@.len() as int));
        r.push(x);
    }
    r
}

/// Takes the waiting entries of one build out of `pending`, in order.
fn take_group(pending: &mut Vec<EmbeddedIndexEntry>, name: &[u8], build_id: u64) -> (group: Vec<EmbeddedIndexEntry>)
    requires
        entries_keyed(old(pending)@),
    ensures
        entries_view(group@) == group_of(entries_view(old(pending)@), name@, build_id),
        entries_view(final(pending)@) == without_group(entries_view(old(pending)@), name@, build_id),
        entries_keyed(group@),
        entries_keyed(final(pending)@),
{
    let ghost ev = entries_view(pending@);
    let mut all: Vec<EmbeddedIndexEntry> = Vec::new();
    std::mem::swap(pending, &mut all);
    let mut rest = reversed_entries(all);
    let mut group: Vec<EmbeddedIndexEntry> = Vec::new();
    let n = rest.len();
    let mut k: usize = 0;
    assert(ev.subrange(0, 0) =~= Seq::<EntryM>::empty());
    assert(entries_view(group@) =~= Seq::<EntryM>::empty());
    assert(entries_view(pending@) =~= Seq::<EntryM>::empty());
    while k < n
        invariant
            n == ev.len(),
            k <= n,
            rest@.len() == n - k,
            forall|q: int| 0 <= q < rest@.len() ==> (#[trigger] rest@[q])@ == ev[n - 1 - q] && crate::record::entry_keyed(rest@[q]),
            entries_view(group@) == group_of(ev.subrange(0, k as int), name@, build_id),
            entries_view(pending@) == without_group(ev.subrange(0, k as int), name@, build_id),
            entries_keyed(group@),
            entries_keyed(pending@),
        decreases n - k,
    {
        let e = rest.pop().unwrap();
        assert(e@ == ev[k as int]);
        assert(ev.subrange(0, k + 1).drop_last() =~= ev.subrange(0, k as int));
        assert(ev.subrange(0, k + 1).last() == ev[k as int]);
        if same_build_exec(&e, name, build_id) {
            let ghost before = group@;
            group.push(e);
            assert(entries_view(group@) =~= entries_view(before).push(e@));
        } else {
            let ghost before = pending@;
            pending.push(e);
            assert(entries_view(pending@) =~= entries_view(before).push(e@));
        }
        k = k + 1;
    }
    assert(ev.subrange(0, n as int) =~= ev);
    group
}

proof fn lemma_same_lists_below(a: Seq<EntryM>, b: Seq<EntryM>, bound: int)
    requires
        same_entry_lists(a, b),
        forall|k: int| 0 <= k < b.len() ==> (#[trigger] b[k]).row_position < bound,
    ensures
        forall|k: int| 0 <= k < a.len() ==> (#[trigger] a[k]).row_position < bound,
{
    let ka = entry_keys(a);
    let kb = entry_keys(b);
    ka.to_multiset_ensures();
    kb.to_multiset_ensures();
    assert forall|k: int| 0 <= k < a.len() implies (#[trigger] a[k]).row_position < bound by {
        assert(ka[k] == entry_key(a[k]));
        assert(ka.contains(ka[k]));
        assert(ka.to_multiset().count(ka[k]) > 0);
        assert(kb.to_multiset().count(ka[k]) > 0);
        assert(kb.contains(ka[k]));
        let j = choose|j: int| 0 <= j < kb.len() && kb[j] == ka[k];
        assert(kb[j] == entry_key(b[j]));
    }
}

fn exec_replay_metadata(
    db: &mut Database,
    pending: &mut Vec<EmbeddedIndexEntry>,
    build_id: u64,
    index_name: Vec<u8>,
    table_name: &[u8],
    indexed_column: u16,
    mode: TieBreakMode,
) -> (r: Result<(), CheckLabel>)
    requires
        db_ok(old(db)@),
        entries_keyed(old(pending)@),
    ensures
        match replay_metadata(old(db)@, entries_view(old(pending)@), build_id, index_name@, table_name@, indexed_column, mode) {
            Ok((d, p)) => r is Ok && final(db)@ == d && entries_view(final(pending)@) == p,
            Err(l) => r == Err::<(), CheckLabel>(l),
        },
        r is Ok ==> db_ok(final(db)@),
        entries_keyed(final(pending)@),
{
    let ghost d0 = db@;
    let ghost p0 = entries_view(pending@);
    let ghost nv = index_name@;
    if contains_index_name(db, index_name.as_slice()) {
        return Err(CheckLabel::SecondaryIndex);
    }
    let i = match find_table_index(db, table_name) {
        None => {
            return Err(CheckLabel::SecondaryIndex);
        },
        Some(i) => i,
    };
    let ghost t0 = d0[i as int];
    assert(t0 == db.tables@[i as int]@);
    assert(table_ok(t0));
    let c = indexed_column as usize;
    if c >= db.tables[i].columns.len() {
        return Err(CheckLabel::SecondaryIndex);
    }
    assert(t0.columns[c as int] == db.tables[i as int].columns@[c as int]@);
    if db.tables[i].columns[c].column_type != ColumnType::Int || (mode == TieBreakMode::PrimaryKey
        && db.tables[i].primary_key_column.is_none()) {
        return Err(CheckLabel::SecondaryIndex);
    }
    let group = take_group(pending, index_name.as_slice(), build_id);
    let mut state = IndexState {
        build_id,
        name: index_name,
        indexed_column: c,
        tie_break_mode: mode,
        index: SecondaryIndex::new(),
    };
    let expected = match backfill_entries(&state, &db.tables[i]) {
        None => {
            return Err(CheckLabel::SecondaryIndex);
        },
        Some(e) => e,
    };
    if !same_entries_in_any_order(&group, &expected) {
        return Err(CheckLabel::SecondaryIndex);
    }
    match fill_index(&mut state, &group) {
        Ok(()) => {},
        Err(_) => {
            return Err(CheckLabel::SecondaryIndex);
        },
    }
    let nrows = db.tables[i].rows.len();
    proof {
        lemma_table_ok_parts(t0);
        assert(nrows == t0.rows.len());
        let x = IndexM { build_id, name: nv, column: c, mode, entries: Map::empty() };
        lemma_backfill_below(x, t0, t0.rows.len() as int);
        lemma_same_lists_below(entries_view(group@), entries_view(expected@), t0.rows.len() as int);
        lemma_fill_below(Map::empty(), entries_view(group@), t0.rows.len() as int);
    }
    install_index(db, i, state);
    Ok(())
}

/// Whether a waiting entry belongs to a committed build.
fn has_stale_pending(db: &Database, pending: &Vec<EmbeddedIndexEntry>) -> (r: bool)
    ensures
        r == stale_pending(db@, entries_view(pending@)),
{
    let ghost pv = entries_view(pending@);
    let np = pending.len();
    let mut k: usize = 0;
    while k < np
        invariant
            np == pending@.len(),
            pv == entries_view(pending@),
            k <= np,
            forall|a: int, i: int, j: int|
                0 <= a < k && 0 <= i < db@.len() && 0 <= j < db@[i].indexes.len() ==> !same_build(
                    #[trigger] pv[a],
                    #[trigger] db@[i].indexes[j].name,
                    db@[i].indexes[j].build_id,
                ),
        decreases np - k,
    {
        let nt = db.tables.len();
        let mut i: usize = 0;
        while i < nt
            invariant
                np == pending@.len(),
                pv == entries_view(pending@),
                k < np,
                nt == db.tables@.len(),
                i <= nt,
                forall|a: int, b: int, j: int|
                    0 <= a < k && 0 <= b < db@.len() && 0 <= j < db@[b].indexes.len() ==> !same_build(
                        #[trigger] pv[a],
                        #[trigger] db@[b].indexes[j].name,
                        db@[b].indexes[j].build_id,
                    ),
                forall|b: int, j: int|
                    0 <= b < i && 0 <= j < db@[b].indexes.len() ==> !same_build(
                        pv[k as int],
                        #[trigger] db@[b].indexes[j].name,
                        db@[b].indexes[j].build_id,
                    ),
            decreases nt - i,
        {
            let t = &db.tables[i];
            let nx = t.secondary_indexes.len();
            let mut j: usize = 0;
            while j < nx
                invariant
                    np == pending@.len(),
                    pv == entries_view(pending@),
                    k < np,
                    nt == db.tables@.len(),
                    i < nt,
                    t == db.tables@[i as int],
                    nx == t.secondary_indexes@.len(),
                    j <= nx,
                    forall|a: int, b: int, q: int|
                        0 <= a < k && 0 <= b < db@.len() && 0 <= q < db@[b].indexes.len() ==> !same_build(
                            #[trigger] pv[a],
                            #[trigger] db@[b].indexes[q].name,
                            db@[b].indexes[q].build_id,
                        ),
                    forall|b: int, q: int|
                        0 <= b < i && 0 <= q < db@[b].indexes.len() ==> !same_build(
                            pv[k as int],
                            #[trigger] db@[b].indexes[q].name,
                            db@[b].indexes[q].build_id,
                        ),
                    forall|q: int|
                        0 <= q < j ==> !same_build(
                            pv[k as int],
                            #[trigger] db@[i as int].indexes[q].name,
                            db@[i as int].indexes[q].build_id,
                        ),
                decreases nx - j,
            {
                let x = &t.secondary_indexes[j];
                assert(db@[i as int].indexes[j as int] == x@);
                assert(pv[k as int] == pending@[k as int]@);
                if same_build_exec(&pending[k], x.name.as_slice(), x.build_id) {
                    assert(same_build(pv[k as int], db@[i as int].indexes[j as int].name, db@[i as int].indexes[j as int].build_id));
                    return true;
                }
                j = j + 1;
            }
            i = i + 1;
        }
        k = k + 1;
    }
    false
}

/// Whether every index holds exactly what its table's rows give.
fn indexes_match_rows(db: &Database) -> (r: bool)
    requires
        db_ok(db@),
    ensures
        r == indexes_consistent(db@),
{
    let nt = db.tables.len();
    let mut i: usize = 0;
    while i < nt
        invariant
            nt == db.tables@.len(),
            db_ok(db@),
            i <= nt,
            forall|b: int, j: int| 0 <= b < i && 0 <= j < db@[b].indexes.len() ==> index_rebuilt(#[trigger] db@[b].indexes[j], db@[b]),
        decreases nt - i,
    {
        let t = &db.tables[i];
        assert(db@[i as int] == t@);
        assert(table_ok(t@));
        proof {
            lemma_table_ok_parts(t@);
        }
        let nx = t.secondary_indexes.len();
        let mut j: usize = 0;
        while j < nx
            invariant
                nt == db.tables@.len(),
                db_ok(db@),
                i < nt,
                t == db.tables@[i as int],
                db@[i as int] == t@,
                table_ok(t@),
                nx == t.secondary_indexes@.len(),
                j <= nx,
                forall|b: int, q: int| 0 <= b < i && 0 <= q < db@[b].indexes.len() ==> index_rebuilt(#[trigger] db@[b].indexes[q], db@[b]),
                forall|q: int| 0 <= q < j ==> index_rebuilt(#[trigger] db@[i as int].indexes[q], db@[i as int]),
            decreases nx - j,
        {
            let x = &t.secondary_indexes[j];
            assert(t@.indexes[j as int] == x@);
            assert(x@.column < t@.columns.len());
            let fresh = IndexState {
                build_id: x.build_id,
                name: crate::bytes::copy_range(x.name.as_slice(), 0, x.name.len()),
                indexed_column: x.indexed_column,
                tie_break_mode: x.tie_break_mode,
                index: SecondaryIndex::new(),
            };
            assert(x.name@.subrange(0, x.name@.len() as int) =~= x.name@);
            let ghost xe = IndexM { entries: Map::empty(), ..x@ };
            assert(fresh@ == xe);
            let mut rebuilt = fresh;
            let ok = match backfill_entries(&rebuilt, t) {
                None => false,
                Some(es) => match fill_index(&mut rebuilt, &es) {
                    Ok(()) => rebuilt.index.same_entries(&x.index),
                    Err(_) => false,
                },
            };
            proof {
                lemma_backfill_same(xe, x@, t@, t@.rows.len() as int);
            }
            if !ok {
                assert(!index_rebuilt(db@[i as int].indexes[j as int], db@[i as int]));
                return false;
            }
            j = j + 1;
        }
        i = i + 1;
    }
    true
}

/// The entries an index takes from rows do not depend on what it holds.
proof fn lemma_backfill_same(x: IndexM, y: IndexM, t: TableM, n: int)
    requires
        x.build_id == y.build_id,
        x.name == y.name,
        x.column == y.column,
        x.mode == y.mode,
    ensures
        backfill(x, t, n) == backfill(y, t, n),
    decreases n,
{
    if n > 0 {
        lemma_backfill_same(x, y, t, n - 1);
    }
}

/// Applies one decoded record.
fn replay_record(db: &mut Database, pending: &mut Vec<EmbeddedIndexEntry>, rec: LogicalRecord) -> (r: Result<(), CheckLabel>)
    requires
        db_ok(old(db)@),
        rows_room(old(db)@),
        entries_keyed(old(pending)@),
        record_keyed(rec),
    ensures
        match replay_step(old(db)@, entries_view(old(pending)@), rec@) {
            Ok((d, p)) => r is Ok && final(db)@ == d && entries_view(final(pending)@) == p,
            Err(l) => r == Err::<(), CheckLabel>(l),
        },
        r is Ok ==> db_ok(final(db)@),
        entries_keyed(final(pending)@),
{
    match rec {
        LogicalRecord::Catalog { table, columns } => exec_replay_catalog(db, table, columns),
        LogicalRecord::Row { table, values } => exec_replay_row(db, table.as_slice(), values),
        LogicalRecord::SecondaryIndexEntry { entry } => {
            let ghost before = pending@;
            pending.push(entry);
            assert(entries_view(pending@) =~= entries_view(before).push(entry@));
            Ok(())
        },
        LogicalRecord::SecondaryIndexMetadata { build_id, index_name, table_name, indexed_column, tie_break_mode } => {
            exec_replay_metadata(db, pending, build_id, index_name, table_name.as_slice(), indexed_column, tie_break_mode)
        },
        LogicalRecord::IndexedRow { table, values, entries } => exec_replay_indexed_row(db, table.as_slice(), values, &entries),
        LogicalRecord::UpdateRow { table, row_position, values, entries } => exec_replay_update(
            db,
            table.as_slice(),
            row_position,
            values,
            &entries,
        ),
        LogicalRecord::DeleteRow { table, row_position } => exec_replay_delete(db, table.as_slice(), row_position),
    }
}

/// Every table has at most `n` row slots.
pub open spec fn rows_within(db: Seq<TableM>, n: int) -> bool {
    forall|k: int| 0 <= k < db.len() ==> (#[trigger] db[k]).rows.len() <= n
}

proof fn lemma_update_rows(db: Seq<TableM>, i: int, t2: TableM, n: int)
    requires
        rows_within(db, n),
        0 <= i < db.len(),
        t2.rows.len() <= n + 1,
    ensures
        rows_within(db.update(i, t2), n + 1),
{
    assert forall|k: int| 0 <= k < db.update(i, t2).len() implies (#[trigger] db.update(i, t2)[k]).rows.len() <= n + 1 by {
        if k != i {
            assert(db.update(i, t2)[k] == db[k]);
        }
    }
}

proof fn lemma_find_bound(db: Seq<TableM>, name: Seq<u8>)
    ensures
        find_table(db, name) matches Some(i) ==> 0 <= i < db.len(),
{
    crate::schema::lemma_find_table(db, name);
}

/// A record adds at most one row slot to one table.
pub proof fn lemma_step_rows(db: Seq<TableM>, pending: Seq<EntryM>, rec: RecordM, n: int)
    requires
        rows_within(db, n),
        n >= 0,
    ensures
        replay_step(db, pending, rec) matches Ok((d2, _)) ==> rows_within(d2, n + 1),
{
    match rec {
        RecordM::Catalog { table, columns } => {
            if let Ok(d2) = replay_catalog(db, table, columns) {
                assert forall|k: int| 0 <= k < d2.len() implies (#[trigger] d2[k]).rows.len() <= n + 1 by {
                    if k < db.len() {
                        assert(d2[k] == db[k]);
                    }
                }
            }
        },
        RecordM::Row { table, values } => {
            lemma_find_bound(db, table);
            if let Some(i) = find_table(db, table) {
                if let Some(t2) = append_row_spec(db[i], values) {
                    lemma_update_rows(db, i, t2, n);
                }
            }
        },
        RecordM::Entry { entry } => {
            assert forall|k: int| 0 <= k < db.len() implies (#[trigger] db[k]).rows.len() <= n + 1 by {}
        },
        RecordM::Metadata { build_id, index_name, table_name, indexed_column, tie_break_mode } => {
            lemma_find_bound(db, table_name);
            if let Some(i) = find_table(db, table_name) {
                let t = db[i];
                match fill_entries(Map::empty(), group_of(pending, index_name, build_id)) {
                    Some(m) => lemma_update_rows(db, i, with_new_index(t, build_id, index_name, indexed_column as int, tie_break_mode, m), n),
                    None => {},
                }
            }
        },
        RecordM::IndexedRow { table, values, entries } => {
            lemma_find_bound(db, table);
            if let Some(i) = find_table(db, table) {
                let t = db[i];
                if let Some(es) = expected_entries(t, values, t.rows.len() as int) {
                    if let Some(xs) = add_entries(t.indexes, es, t.rows.len() as usize) {
                        if let Some(t2) = append_row_spec(TableM { indexes: xs, ..t }, values) {
                            lemma_update_rows(db, i, t2, n);
                        }
                    }
                }
            }
        },
        RecordM::UpdateRow { table, row_position, values, entries } => {
            lemma_find_bound(db, table);
            if let Some(i) = find_table(db, table) {
                if let Some(es) = expected_entries(db[i], values, row_position as int) {
                    if let Some(t2) = update_row_spec(db[i], row_position as int, values, es) {
                        lemma_update_rows(db, i, t2, n);
                    }
                }
            }
        },
        RecordM::DeleteRow { table, row_position } => {
            lemma_find_bound(db, table);
            if let Some(i) = find_table(db, table) {
                if let Some(t2) = delete_row_spec(db[i], row_position as int) {
                    lemma_update_rows(db, i, t2, n);
                }
            }
        },
    }
}

/// Once a prefix of the records breaks an invariant, so do all of them.
proof fn lemma_prefix_err_stays(s: Seq<Seq<u8>>, m: int, j: int)
    requires
        0 <= m <= j <= s.len(),
        replay_prefix(s.subrange(0, m)) is Err,
    ensures
        replay_prefix(s.subrange(0, j)) == replay_prefix(s.subrange(0, m)),
    decreases j - m,
{
    if j > m {
        lemma_prefix_err_stays(s, m, j - 1);
        assert(s.subrange(0, j).drop_last() =~= s.subrange(0, j - 1));
    }
}

/// The primary key a row record would repeat in its table: the table's
/// name and the key, when the row's key column holds an integer the table
/// already has.
pub open spec fn key_in_table(db: Seq<TableM>, table: Seq<u8>, values: Seq<ValueM>) -> Option<(Seq<u8>, i64)> {
    match find_table(db, table) {
        None => None,
        Some(i) => match db[i].pk {
            None => None,
            Some(c) => if (c as int) < values.len() {
                match values[c as int] {
                    ValueM::Int(k) => if db[i].primary.contains_key(k) {
                        Some((db[i].name, k))
                    } else {
                        None
                    },
                    ValueM::Text(_) => None,
                }
            } else {
                None
            },
        },
    }
}

/// The primary key a record would repeat, for the records that add a row.
pub open spec fn repeated_key(db: Seq<TableM>, rec: RecordM) -> Option<(Seq<u8>, i64)> {
    match rec {
        RecordM::Row { table, values } => key_in_table(db, table, values),
        RecordM::IndexedRow { table, values, .. } => key_in_table(db, table, values),
        _ => None,
    }
}

/// The repeated primary key behind the first record that breaks the
/// primary index invariant, if that is why the records do not replay.
pub open spec fn replay_cause(records: Seq<Seq<u8>>) -> Option<(Seq<u8>, i64)>
    decreases records.len(),
{
    if records.len() == 0 {
        None
    } else {
        match replay_prefix(records.drop_last()) {
            Err(_) => replay_cause(records.drop_last()),
            Ok((db, pending)) => match decode_spec(records.last()) {
                None => None,
                Some(rec) => if replay_step(db, pending, rec) == Err::<(Seq<TableM>, Seq<EntryM>), CheckLabel>(
                    CheckLabel::PrimaryIndex,
                ) {
                    repeated_key(db, rec)
                } else {
                    None
                },
            },
        }
    }
}

/// The error records that do not replay are reported as: a repeated
/// primary key names its table and key; any other broken invariant makes
/// them an invalid storage record.
pub open spec fn replay_error(records: Seq<Seq<u8>>) -> crate::sql::SqlErrorM {
    match replay_cause(records) {
        Some((t, k)) => crate::sql::SqlErrorM::DuplicateStoredKey(t, k),
        None => crate::sql::SqlErrorM::InvalidStorageRecord,
    }
}

proof fn lemma_cause_none_when_ok(s: Seq<Seq<u8>>)
    requires
        replay_prefix(s) is Ok,
    ensures
        replay_cause(s) is None,
    decreases s.len(),
{
    if s.len() > 0 {
        lemma_cause_none_when_ok(s.drop_last());
    }
}

proof fn lemma_cause_stays(s: Seq<Seq<u8>>, m: int, j: int)
    requires
        0 <= m <= j <= s.len(),
        replay_prefix(s.subrange(0, m)) is Err,
    ensures
        replay_cause(s.subrange(0, j)) == replay_cause(s.subrange(0, m)),
    decreases j - m,
{
    if j > m {
        lemma_cause_stays(s, m, j - 1);
        lemma_prefix_err_stays(s, m, j - 1);
        assert(s.subrange(0, j).drop_last() =~= s.subrange(0, j - 1));
    }
}

fn key_in_table_exec(db: &Database, table: &[u8], values: &Vec<Value>) -> (r: Option<(Vec<u8>, i64)>)
    ensures
        match key_in_table(db@, table@, values_view(values@)) {
            Some((t, k)) => r matches Some((tv, kv)) && tv@ == t && kv == k,
            None => r is None,
        },
{
    let i = match find_table_index(db, table) {
        None => {
            return None;
        },
        Some(i) => i,
    };
    let t = &db.tables[i];
    assert(db@[i as int] == t@);
    match t.primary_key_column {
        None => None,
        Some(c) => {
            if c < values.len() {
                assert(values_view(values@)[c as int] == values@[c as int]@);
                match &values[c] {
                    Value::Int(k) => {
                        if t.primary_index.get(*k).is_some() {
                            Some((crate::engine::copy_bytes(t.name.as_slice()), *k))
                        } else {
                            None
                        }
                    },
                    Value::Text(_) => None,
                }
            } else {
                None
            }
        },
    }
}

fn repeated_key_exec(db: &Database, rec: &LogicalRecord) -> (r: Option<(Vec<u8>, i64)>)
    ensures
        match repeated_key(db@, rec@) {
            Some((t, k)) => r matches Some((tv, kv)) && tv@ == t && kv == k,
            None => r is None,
        },
{
    match rec {
        LogicalRecord::Row { table, values } => key_in_table_exec(db, table.as_slice(), values),
        LogicalRecord::IndexedRow { table, values, .. } => key_in_table_exec(db, table.as_slice(), values),
        _ => None,
    }
}

/// The model of a replay failure's cause.
pub open spec fn cause_view(c: Option<(Vec<u8>, i64)>) -> Option<(Seq<u8>, i64)> {
    match c {
        Some((t, k)) => Some((t@, k)),
        None => None,
    }
}

/// Replays the records in order from an empty database, then checks that
/// no entry waits for a committed build and that every index matches its
/// rows; a failure carries the invariant broken and the repeated primary
/// key behind it, if that is the cause.
fn replay_with_cause(records: &Vec<Vec<u8>>) -> (r: Result<Database, (CheckLabel, Option<(Vec<u8>, i64)>)>)
    ensures
        match replay_spec(rec_view(records@)) {
            Ok(d) => r matches Ok(db) && db@ == d && db_ok(db@),
            Err(l) => r matches Err((l2, c)) && l2 == l && cause_view(c) == replay_cause(rec_view(records@)),
        },
{
    let ghost rv = rec_view(records@);
    let mut db = Database { tables: Vec::new() };
    let mut pending: Vec<EmbeddedIndexEntry> = Vec::new();
    let n = records.len();
    let mut k: usize = 0;
    assert(rv.subrange(0, 0) =~= Seq::<Seq<u8>>::empty());
    assert(db@ =~= Seq::<TableM>::empty());
    assert(entries_view(pending@) =~= Seq::<EntryM>::empty());
    while k < n
        invariant
            n == records@.len(),
            rv == rec_view(records@),
            k <= n,
            replay_prefix(rv.subrange(0, k as int)) == Ok::<_, CheckLabel>((db@, entries_view(pending@))),
            db_ok(db@),
            entries_keyed(pending@),
            rows_within(db@, k as int),
        decreases n - k,
    {
        assert(rv.subrange(0, k + 1).drop_last() =~= rv.subrange(0, k as int));
        assert(rv.subrange(0, k + 1).last() == records@[k as int]@);
        let rec = match decode_record(records[k].as_slice()) {
            None => {
                proof {
                    lemma_prefix_err_stays(rv, k + 1, n as int);
                    lemma_cause_stays(rv, k + 1, n as int);
                    assert(rv.subrange(0, n as int) =~= rv);
                }
                return Err((CheckLabel::StorageRecordReadability, None));
            },
            Some(rec) => rec,
        };
        let ghost d0 = db@;
        let ghost p0 = entries_view(pending@);
        let ghost rm = rec@;
        let cause = repeated_key_exec(&db, &rec);
        match replay_record(&mut db, &mut pending, rec) {
            Ok(()) => {},
            Err(l) => {
                let c = match l {
                    CheckLabel::PrimaryIndex => cause,
                    _ => None,
                };
                proof {
                    lemma_prefix_err_stays(rv, k + 1, n as int);
                    lemma_cause_stays(rv, k + 1, n as int);
                    assert(rv.subrange(0, n as int) =~= rv);
                }
                return Err((l, c));
            },
        }
        proof {
            lemma_step_rows(d0, p0, rm, k as int);
        }
        k = k + 1;
    }
    assert(rv.subrange(0, n as int) =~= rv);
    proof {
        lemma_cause_none_when_ok(rv);
    }
    if has_stale_pending(&db, &pending) || !indexes_match_rows(&db) {
        return Err((CheckLabel::SecondaryIndex, None));
    }
    Ok(db)
}

/// Replays the records in order from an
/// empty database, then checks that no entry waits for a committed build
/// and that every index matches its rows.
pub fn replay_records(records: &Vec<Vec<u8>>) -> (r: Result<Database, CheckLabel>)
    ensures
        match replay_spec(rec_view(records@)) {
            Ok(d) => r matches Ok(db) && db@ == d && db_ok(db@),
            Err(l) => r == Err::<Database, CheckLabel>(l),
        },
{
    match replay_with_cause(records) {
        Ok(db) => Ok(db),
        Err((l, _)) => Err(l),
    }
}

impl Database {
    /// The database the records describe, or the name of the invariant
    /// they break.
    pub fn from_records_with_check_label(records: Vec<Vec<u8>>) -> (r: Result<Database, &'static str>)
        ensures
            match replay_spec(rec_view(records@)) {
                Ok(d) => r matches Ok(db) && db@ == d && db_ok(db@),
                Err(l) => r matches Err(s) && s@ == label_text(l),
            },
    {
        match replay_records(&records) {
            Ok(db) => Ok(db),
            Err(l) => Err(l.text()),
        }
    }

    /// The database the records describe; records that repeat a primary
    /// key report the table and key, any other broken invariant makes them
    /// an invalid storage record.
    pub fn from_records(records: Vec<Vec<u8>>) -> (r: Result<Database, SqlError>)
        ensures
            match replay_spec(rec_view(records@)) {
                Ok(d) => r matches Ok(db) && db@ == d && db_ok(db@),
                Err(_) => r matches Err(e) && e@ == replay_error(rec_view(records@)),
            },
    {
        match replay_with_cause(&records) {
            Ok(db) => Ok(db),
            Err((_, Some((table, key)))) => Err(SqlError::DuplicateStoredKey { table, key }),
            Err((_, None)) => Err(SqlError::InvalidStorageRecord),
        }
    }
}

} // verus!
