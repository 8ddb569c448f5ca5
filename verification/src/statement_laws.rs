//! What the statements are for, stated over their inputs and the database
//! they leave: an `UPDATE` sets the column it names, a `DELETE` removes the
//! row its key names, an `INSERT` stores only values of their columns'
//! types, and a `WHERE` reads its column name up to ASCII case.
use crate::engine::select_where_spec;
use crate::parser::{Predicate, StatementM};
use crate::record::{value_type, ValueM};
use crate::run::step_spec;
use crate::rows::{delete_row_spec, update_row_spec};
use crate::statements::{delete_check, insert_apply, insert_check, update_check};
use crate::schema::{find_table, index_for_column, index_for_from, live, row_at, same_name, values_check, values_from, TableM};
use crate::text::lower;
use vstd::prelude::*;

verus! {

/// A successful `UPDATE t SET col = v WHERE pk = key`, where the table has
/// that key, leaves the key's row live and equal to the old row with one
/// column named `col` (ignoring case) set to `v`; every other row slot, the
/// primary index and every other table stay as they were.
pub proof fn law_update_sets_the_column(
    db: Seq<TableM>,
    table: Seq<u8>,
    set_column: Seq<u8>,
    value: ValueM,
    where_column: Seq<u8>,
    key: i64,
    n: int,
    i: int,
)
    requires
        find_table(db, table) == Some(i),
        db[i].primary.contains_key(key),
        step_spec(db, StatementM::Update { table, set_column, value, where_column, key }, n) is Ok,
    ensures
        ({
            let d2 = step_spec(db, StatementM::Update { table, set_column, value, where_column, key }, n)->Ok_0.0;
            let t = db[i];
            let p = t.primary[key] as int;
            &&& d2.len() == db.len()
            &&& forall|j: int| 0 <= j < db.len() && j != i ==> #[trigger] d2[j] == db[j]
            &&& live(d2[i], p)
            &&& exists|s: int|
                0 <= s < t.columns.len() && same_name(#[trigger] t.columns[s].name, set_column) && row_at(d2[i], p)
                    == row_at(t, p).update(s, value)
            &&& d2[i].rows.len() == t.rows.len()
            &&& forall|q: int| 0 <= q < t.rows.len() && q != p ==> #[trigger] d2[i].rows[q] == t.rows[q]
            &&& d2[i].primary == t.primary
            &&& d2[i].name == t.name
            &&& d2[i].columns == t.columns
        }),
{
    crate::schema::lemma_find_table(db, table);
    lemma_step_update(db, table, set_column, value, where_column, key, n);
    reveal(update_check);
    let t = db[i];
    let uc = update_check(db, table, set_column, value, where_column, key);
    assert(uc is Ok);
    assert(crate::statements::key_predicate_check(t, where_column) is Ok);
    assert(crate::statements::column_from(t.columns, set_column, 0) is Some);
    assert(uc->Ok_0 is Some);
    let s = crate::statements::column_from(t.columns, set_column, 0)->Some_0;
    crate::statements::lemma_column_from(t.columns, set_column, 0);
    lemma_column_from_names(t.columns, set_column, 0);
    let p = t.primary[key] as int;
    let vs = row_at(t, p).update(s, value);
    assert(same_name(t.columns[s].name, set_column));
    assert(update_check(db, table, set_column, value, where_column, key) matches Ok(Some((i2, p2, vs2, es))) && i2 == i && p2 == p
        && vs2 == vs);
    let es = update_check(db, table, set_column, value, where_column, key)->Ok_0->Some_0.3;
    let u = update_row_spec(t, p, vs, es)->Some_0;
    assert(u.rows == t.rows.update(p, Some(vs)));
    assert(row_at(u, p) == vs);
    let d2 = step_spec(db, StatementM::Update { table, set_column, value, where_column, key }, n)->Ok_0.0;
    assert(d2 == db.update(i, u));
    assert(d2[i] == u);
}

proof fn lemma_step_update(
    db: Seq<TableM>,
    table: Seq<u8>,
    set_column: Seq<u8>,
    value: ValueM,
    where_column: Seq<u8>,
    key: i64,
    n: int,
)
    ensures
        step_spec(db, StatementM::Update { table, set_column, value, where_column, key }, n) is Ok ==> match update_check(
            db,
            table,
            set_column,
            value,
            where_column,
            key,
        ) {
            Ok(Some((i, p, vs, es))) => update_row_spec(db[i], p, vs, es) is Some && step_spec(
                db,
                StatementM::Update { table, set_column, value, where_column, key },
                n,
            )->Ok_0.0 == db.update(i, update_row_spec(db[i], p, vs, es)->Some_0),
            Ok(None) => step_spec(db, StatementM::Update { table, set_column, value, where_column, key }, n)->Ok_0.0 == db,
            Err(_) => false,
        },
{
    reveal(step_spec);
}

/// The column `column_from` finds is one with that name.
proof fn lemma_column_from_names(cs: Seq<crate::record::ColumnM>, name: Seq<u8>, j: int)
    requires
        0 <= j <= cs.len(),
    ensures
        crate::statements::column_from(cs, name, j) matches Some(k) ==> same_name(cs[k].name, name),
    decreases cs.len() - j,
{
    if j < cs.len() && !same_name(cs[j].name, name) {
        lemma_column_from_names(cs, name, j + 1);
    }
}

/// A successful `DELETE FROM t WHERE pk = key`, where the table has that
/// key, empties the key's row slot and leaves every other slot and every
/// other table as they were; where the primary index agrees with the rows,
/// the key leaves the index.
pub proof fn law_delete_removes_the_row(
    db: Seq<TableM>,
    table: Seq<u8>,
    where_column: Seq<u8>,
    key: i64,
    n: int,
    i: int,
)
    requires
        find_table(db, table) == Some(i),
        db[i].primary.contains_key(key),
        step_spec(db, StatementM::Delete { table, where_column, key }, n) is Ok,
    ensures
        ({
            let d2 = step_spec(db, StatementM::Delete { table, where_column, key }, n)->Ok_0.0;
            let t = db[i];
            let p = t.primary[key] as int;
            &&& d2.len() == db.len()
            &&& forall|j: int| 0 <= j < db.len() && j != i ==> #[trigger] d2[j] == db[j]
            &&& live(t, p)
            &&& !live(d2[i], p)
            &&& d2[i].rows.len() == t.rows.len()
            &&& forall|q: int| 0 <= q < t.rows.len() && q != p ==> #[trigger] d2[i].rows[q] == t.rows[q]
            &&& crate::persist::primary_agrees(t) ==> !d2[i].primary.contains_key(key)
        }),
{
    crate::schema::lemma_find_table(db, table);
    lemma_step_delete(db, table, where_column, key, n);
    reveal(delete_check);
    let t = db[i];
    let p = t.primary[key] as int;
    assert(delete_check(db, table, where_column, key) is Ok);
    assert(crate::statements::key_predicate_check(t, where_column) is Ok);
    assert(delete_check(db, table, where_column, key) == Ok::<_, crate::sql::SqlErrorM>(Some((i, p))));
    let u = delete_row_spec(t, p)->Some_0;
    assert(u.rows == t.rows.update(p, None));
    let d2 = step_spec(db, StatementM::Delete { table, where_column, key }, n)->Ok_0.0;
    assert(d2 == db.update(i, u));
    assert(d2[i] == u);
    assert(live(t, p));
    assert(!live(d2[i], p));
    if crate::persist::primary_agrees(t) {
        let c = t.pk->Some_0;
        assert(row_at(t, p)[c as int] == ValueM::Int(key));
    }
}

proof fn lemma_step_delete(db: Seq<TableM>, table: Seq<u8>, where_column: Seq<u8>, key: i64, n: int)
    ensures
        step_spec(db, StatementM::Delete { table, where_column, key }, n) is Ok ==> match delete_check(db, table, where_column, key) {
            Ok(Some((i, p))) => delete_row_spec(db[i], p) is Some && step_spec(db, StatementM::Delete { table, where_column, key }, n)->Ok_0.0
                == db.update(i, delete_row_spec(db[i], p)->Some_0),
            Ok(None) => step_spec(db, StatementM::Delete { table, where_column, key }, n)->Ok_0.0 == db,
            Err(_) => false,
        },
{
    reveal(step_spec);
}

/// A successful `INSERT INTO t VALUES (...)` stores exactly the given
/// values as a new last row, one per column and each of its column's
/// declared type, and leaves every other table as it was.
pub proof fn law_insert_stores_typed_values(db: Seq<TableM>, table: Seq<u8>, values: Seq<ValueM>, n: int, i: int)
    requires
        find_table(db, table) == Some(i),
        step_spec(db, StatementM::Insert { table, values }, n) is Ok,
    ensures
        ({
            let d2 = step_spec(db, StatementM::Insert { table, values }, n)->Ok_0.0;
            let t = db[i];
            &&& values.len() == t.columns.len()
            &&& forall|j: int| 0 <= j < values.len() ==> value_type(#[trigger] values[j]) == t.columns[j].column_type
            &&& d2.len() == db.len()
            &&& forall|j: int| 0 <= j < db.len() && j != i ==> #[trigger] d2[j] == db[j]
            &&& d2[i].rows == t.rows.push(Some(values))
        }),
{
    crate::schema::lemma_find_table(db, table);
    lemma_step_insert(db, table, values, n);
    reveal(insert_check);
    let t = db[i];
    assert(insert_check(db, table, values) is Ok);
    assert(values_check(t, values) is Ok);
    assert(values.len() == t.columns.len());
    lemma_values_from_types(t.columns, values, 0);
    lemma_insert_apply_rows(t, values);
}

proof fn lemma_step_insert(db: Seq<TableM>, table: Seq<u8>, values: Seq<ValueM>, n: int)
    ensures
        step_spec(db, StatementM::Insert { table, values }, n) is Ok ==> (insert_check(db, table, values) matches Ok((i, p))
            && insert_apply(db[i], values) is Some && step_spec(db, StatementM::Insert { table, values }, n)->Ok_0.0
            == db.update(i, insert_apply(db[i], values)->Some_0)),
{
    reveal(step_spec);
}

proof fn lemma_insert_apply_rows(t: TableM, values: Seq<ValueM>)
    requires
        insert_apply(t, values) is Some,
    ensures
        insert_apply(t, values)->Some_0.rows == t.rows.push(Some(values)),
{
}

/// Values that pass the check from `j` on have their columns' types.
pub proof fn lemma_values_from_types(cs: Seq<crate::record::ColumnM>, vs: Seq<ValueM>, j: int)
    requires
        0 <= j,
        values_from(cs, vs, j) is Ok,
        vs.len() <= cs.len(),
    ensures
        forall|k: int| j <= k < vs.len() ==> value_type(#[trigger] vs[k]) == cs[k].column_type,
    decreases vs.len() - j,
{
    if j < vs.len() {
        lemma_values_from_types(cs, vs, j + 1);
    }
}

proof fn lemma_index_for_ignores_case(t: TableM, a: Seq<u8>, b: Seq<u8>, j: int)
    requires
        lower(a) == lower(b),
    ensures
        index_for_from(t, a, j) == index_for_from(t, b, j),
    decreases t.indexes.len() - j,
{
    if 0 <= j < t.indexes.len() {
        lemma_index_for_ignores_case(t, a, b, j + 1);
    }
}

/// A `WHERE` query reads its column name up to ASCII case: two names that
/// lower-case alike give the same rows, or the same error.
pub proof fn law_where_column_ignores_case(
    db: Seq<TableM>,
    table: Seq<u8>,
    a: Seq<u8>,
    b: Seq<u8>,
    predicate: Predicate,
    raw: Seq<u8>,
)
    requires
        lower(a) == lower(b),
    ensures
        select_where_spec(db, table, a, predicate, raw) == select_where_spec(db, table, b, predicate, raw),
{
    if let Some(i) = find_table(db, table) {
        lemma_index_for_ignores_case(db[i], a, b, 0);
    }
}

} // verus!
