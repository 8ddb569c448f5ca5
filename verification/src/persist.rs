//! What a reopen reads back of a run: replaying the records that a
//! successful run of statements appends, after those the database was
//! opened from, rebuilds exactly the tables the run left.
use crate::page::StorageError;
use crate::parser::StatementM;
use crate::record::{
    decode_spec, encode_record, lemma_decode_encode, record_ok, str16_ok, value_ok, values_ok, ColumnM, EntryM, RecordM,
    ValueM,
};
use crate::replay::{replay_prefix, replay_step, CheckLabel};
use crate::rows::{append_row_spec, delete_row_spec, expected_entries, update_row_spec};
use crate::run::{run_spec, step_spec};
use crate::schema::{find_from, find_table, live, row_at, same_name, values_check, TableM};
use crate::sql::SqlErrorM;
use crate::statements::{delete_check, insert_apply, insert_check, update_check};
use vstd::prelude::*;

verus! {

/// What a table stores can be written back into records: its name and the
/// names of its indexes fit their length fields and are UTF-8, its column
/// and index counts fit theirs, and every stored row has a value per column
/// and can be encoded.
pub open spec fn table_storable(t: TableM) -> bool {
    &&& str16_ok(t.name)
    &&& t.columns.len() < 65536
    &&& t.indexes.len() < 65536
    &&& forall|j: int| 0 <= j < t.indexes.len() ==> str16_ok(#[trigger] t.indexes[j].name)
    &&& forall|p: int| #[trigger] live(t, p) ==> values_ok(row_at(t, p)) && row_at(t, p).len() == t.columns.len()
}

/// Every table can be written back, and no two tables share a name
/// (ignoring case).
pub open spec fn reopenable(d: Seq<TableM>) -> bool {
    &&& forall|i: int| 0 <= i < d.len() ==> table_storable(#[trigger] d[i])
    &&& forall|i: int, j: int| 0 <= i < j < d.len() ==> !same_name(#[trigger] d[i].name, #[trigger] d[j].name)
}

/// Every table has room for `r` more indexes: its count of indexes, and
/// so the count of entries a row carries, stays below the 16-bit limit.
pub open spec fn index_room(d: Seq<TableM>, r: int) -> bool {
    &&& 0 <= r < 65536
    &&& forall|i: int| 0 <= i < d.len() ==> (#[trigger] d[i]).indexes.len() + r < 65536
}

/// What the parser gives: the names a `CREATE TABLE` or `CREATE INDEX`
/// writes are valid identifiers, a table has at least one column, and the
/// values a statement writes are storable text or integers.
pub open spec fn statement_ok(st: StatementM) -> bool {
    match st {
        StatementM::CreateTable { table, columns } => name_ok(table) && 0 < columns.len() < 65536 && forall|j: int|
            0 <= j < columns.len() ==> name_ok(#[trigger] columns[j].name),
        StatementM::Insert { values, .. } => forall|j: int| 0 <= j < values.len() ==> value_ok(#[trigger] values[j]),
        StatementM::Update { value, .. } => value_ok(value),
        StatementM::CreateIndex { index, .. } => name_ok(index),
        _ => true,
    }
}

/// Replaying records, one after the other, from the tables `d` and the
/// waiting entries `pending`.
#[verifier::opaque]
pub open spec fn replay_from(d: Seq<TableM>, pending: Seq<EntryM>, ps: Seq<Seq<u8>>) -> Result<
    (Seq<TableM>, Seq<EntryM>),
    CheckLabel,
>
    decreases ps.len(),
{
    if ps.len() == 0 {
        Ok((d, pending))
    } else {
        match replay_from(d, pending, ps.drop_last()) {
            Err(l) => Err(l),
            Ok((d1, p1)) => match decode_spec(ps.last()) {
                None => Err(CheckLabel::StorageRecordReadability),
                Some(rec) => replay_step(d1, p1, rec),
            },
        }
    }
}

/// Replaying `s` then `ps` is replaying `ps` from where `s` left off.
pub proof fn lemma_replay_concat(s: Seq<Seq<u8>>, ps: Seq<Seq<u8>>)
    ensures
        replay_prefix(s + ps) == match replay_prefix(s) {
            Err(l) => Err(l),
            Ok((d, p)) => replay_from(d, p, ps),
        },
    decreases ps.len(),
{
    reveal_with_fuel(replay_from, 1);
    if ps.len() == 0 {
        assert(s + ps =~= s);
    } else {
        lemma_replay_concat(s, ps.drop_last());
        assert((s + ps).drop_last() =~= s + ps.drop_last());
        assert((s + ps).last() == ps.last());
    }
}

proof fn lemma_find_own(d: Seq<TableM>, i: int)
    requires
        reopenable(d),
        0 <= i < d.len(),
    ensures
        find_table(d, d[i].name) == Some(i),
{
    lemma_find_own_from(d, i, 0);
}

proof fn lemma_find_own_from(d: Seq<TableM>, i: int, k: int)
    requires
        reopenable(d),
        0 <= k <= i < d.len(),
    ensures
        find_from(d, d[i].name, k) == Some(i),
    decreases i - k,
{
    if k < i {
        assert(!same_name(d[k].name, d[i].name));
        lemma_find_own_from(d, i, k + 1);
    }
}

/// One record replays to `result` from `(d, pending)`.
pub open spec fn replays_to(d: Seq<TableM>, pending: Seq<EntryM>, r: RecordM, result: Seq<TableM>) -> bool {
    replay_from(d, pending, seq![encode_record(r)]) == Ok::<(Seq<TableM>, Seq<EntryM>), CheckLabel>((result, pending))
}

proof fn lemma_one_record(d: Seq<TableM>, pending: Seq<EntryM>, r: RecordM)
    requires
        record_ok(r),
    ensures
        replay_from(d, pending, seq![encode_record(r)]) == replay_step(d, pending, r),
{
    reveal_with_fuel(replay_from, 2);
    lemma_decode_encode(r);
    let ps = seq![encode_record(r)];
    assert(ps.drop_last() =~= Seq::<Seq<u8>>::empty());
    let step = replay_step(d, pending, r);
    assert(replay_from(d, pending, ps.drop_last()) == Ok::<(Seq<TableM>, Seq<EntryM>), CheckLabel>((d, pending)));
    assert(decode_spec(ps.last()) == Some(r));
    assert(replay_from(d, pending, ps) == step);
}

proof fn lemma_table_storable_update(d: Seq<TableM>, i: int, t2: TableM)
    requires
        reopenable(d),
        0 <= i < d.len(),
        table_storable(t2),
        t2.name == d[i].name,
        t2.indexes.len() == d[i].indexes.len(),
    ensures
        reopenable(d.update(i, t2)),
        forall|r: int| #[trigger] index_room(d, r) ==> index_room(d.update(i, t2), r),
{
    let d2 = d.update(i, t2);
    assert forall|r: int| #[trigger] index_room(d, r) implies index_room(d2, r) by {
        assert forall|k: int| 0 <= k < d2.len() implies (#[trigger] d2[k]).indexes.len() + r < 65536 by {
            assert(d[k].indexes.len() + r < 65536);
        }
    }
    let d2 = d.update(i, t2);
    assert forall|a: int, b: int| 0 <= a < b < d2.len() implies !same_name(#[trigger] d2[a].name, #[trigger] d2[b].name) by {
        assert(d2[a].name == d[a].name);
        assert(d2[b].name == d[b].name);
    }
}

/// Two indexes that differ at most in their entries.
pub open spec fn same_shape(a: crate::schema::IndexM, b: crate::schema::IndexM) -> bool {
    a.build_id == b.build_id && a.name == b.name && a.column == b.column && a.mode == b.mode
}

pub proof fn lemma_entries_shape(xs: Seq<crate::schema::IndexM>, t: TableM, row: Seq<ValueM>, p: int)
    ensures
        crate::rows::expected_entries_of(xs, t, row, p) matches Some(es) ==> es.len() == xs.len() && forall|k: int|
            0 <= k < es.len() ==> (#[trigger] es[k]).index_name == xs[k].name && es[k].build_id == xs[k].build_id
                && crate::rows::expected_entry(xs[k], t, row, p) == Some(es[k]),
    decreases xs.len(),
{
    if xs.len() > 0 {
        lemma_entries_shape(xs.drop_last(), t, row, p);
    }
}

proof fn lemma_index_of_entry_bound(xs: Seq<crate::schema::IndexM>, e: EntryM, j: int)
    ensures
        crate::rows::index_of_entry(xs, e, j) matches Some(k) ==> 0 <= k < xs.len(),
    decreases xs.len() - j,
{
    if 0 <= j < xs.len() && !(xs[j].build_id == e.build_id && same_name(xs[j].name, e.index_name)) {
        lemma_index_of_entry_bound(xs, e, j + 1);
    }
}

pub proof fn lemma_add_entries_shape(xs: Seq<crate::schema::IndexM>, es: Seq<EntryM>, p: usize)
    ensures
        crate::rows::add_entries(xs, es, p) matches Some(ys) ==> ys.len() == xs.len() && forall|k: int|
            0 <= k < ys.len() ==> (#[trigger] ys[k]).name == xs[k].name && same_shape(ys[k], xs[k]),
    decreases es.len(),
{
    if es.len() > 0 {
        lemma_add_entries_shape(xs, es.drop_last(), p);
        if let Some(cur) = crate::rows::add_entries(xs, es.drop_last(), p) {
            lemma_index_of_entry_bound(cur, es.last(), 0);
        }
    }
}

pub proof fn lemma_drop_entries_shape(xs: Seq<crate::schema::IndexM>, es: Seq<EntryM>, p: usize)
    ensures
        crate::rows::drop_entries(xs, es, p) matches Some(ys) ==> ys.len() == xs.len() && forall|k: int|
            0 <= k < ys.len() ==> (#[trigger] ys[k]).name == xs[k].name && same_shape(ys[k], xs[k]),
    decreases es.len(),
{
    if es.len() > 0 {
        lemma_drop_entries_shape(xs, es.drop_last(), p);
        if let Some(cur) = crate::rows::drop_entries(xs, es.drop_last(), p) {
            lemma_index_of_entry_bound(cur, es.last(), 0);
        }
    }
}

proof fn lemma_check_len(t: TableM, vs: Seq<ValueM>)
    requires
        values_check(t, vs) is Ok,
    ensures
        vs.len() == t.columns.len(),
{
}

/// The entries a storable table gives for a row can be written back.
proof fn lemma_entries_storable(t: TableM, row: Seq<ValueM>, p: int)
    requires
        table_storable(t),
    ensures
        expected_entries(t, row, p) matches Some(es) ==> crate::record::entries_ok(es),
{
    lemma_entries_shape(t.indexes, t, row, p);
    if let Some(es) = expected_entries(t, row, p) {
        assert forall|k: int| 0 <= k < es.len() implies str16_ok(#[trigger] es[k].index_name) by {
            assert(es[k].index_name == t.indexes[k].name);
        }
    }
}

/// A successful `INSERT` appends one record, which replays to the table
/// with the new row.
proof fn lemma_insert_replays(d: Seq<TableM>, pending: Seq<EntryM>, table: Seq<u8>, values: Seq<ValueM>, n: int)
    requires
        reopenable(d),
        statement_ok(StatementM::Insert { table, values }),
        step_spec(d, StatementM::Insert { table, values }, n) is Ok,
    ensures
        step_spec(d, StatementM::Insert { table, values }, n) matches Ok((d2, ps, _)) && replay_from(d, pending, ps)
            == Ok::<(Seq<TableM>, Seq<EntryM>), CheckLabel>((d2, pending)) && reopenable(d2) && forall|r: int| #[trigger] index_room(d, r) ==> index_room(d2, r),
{
    reveal(step_spec);
    reveal(insert_check);
    crate::schema::lemma_find_table(d, table);
    let i = find_table(d, table)->Some_0;
    let t = d[i];
    lemma_find_own(d, i);
    lemma_check_len(t, values);
    assert(values_ok(values));
    let t2 = insert_apply(t, values)->Some_0;
    if t.indexes.len() == 0 {
        let r = RecordM::Row { table: t.name, values };
        lemma_one_record(d, pending, r);
    } else {
        let es = expected_entries(t, values, t.rows.len() as int)->Some_0;
        lemma_entries_storable(t, values, t.rows.len() as int);
        let r = RecordM::IndexedRow { table: t.name, values, entries: es };
        lemma_one_record(d, pending, r);
        assert(crate::schema::same_entry_lists(es, es));
        lemma_add_entries_shape(t.indexes, es, t.rows.len() as usize);
    }
    assert(table_storable(t2)) by {
        assert forall|p: int| #[trigger] live(t2, p) implies values_ok(row_at(t2, p)) && row_at(t2, p).len() == t2.columns.len() by {
            if p < t.rows.len() {
                assert(live(t, p));
            }
        }
    }
    lemma_table_storable_update(d, i, t2);
}

proof fn lemma_update_row_storable(t: TableM, p: int, vs: Seq<ValueM>, es: Seq<EntryM>)
    requires
        table_storable(t),
        values_ok(vs),
        vs.len() == t.columns.len(),
        update_row_spec(t, p, vs, es) is Some,
    ensures
        table_storable(update_row_spec(t, p, vs, es)->Some_0),
        update_row_spec(t, p, vs, es)->Some_0.name == t.name,
        update_row_spec(t, p, vs, es)->Some_0.indexes.len() == t.indexes.len(),
{
    let t2 = update_row_spec(t, p, vs, es)->Some_0;
    let old_es = expected_entries(t, row_at(t, p), p)->Some_0;
    let x1 = crate::rows::drop_entries(t.indexes, old_es, p as usize)->Some_0;
    lemma_drop_entries_shape(t.indexes, old_es, p as usize);
    lemma_add_entries_shape(x1, es, p as usize);
    assert forall|q: int| #[trigger] live(t2, q) implies values_ok(row_at(t2, q)) && row_at(t2, q).len() == t2.columns.len() by {
        if q != p {
            assert(live(t, q));
        }
    }
}

proof fn lemma_update_some(d: Seq<TableM>, pending: Seq<EntryM>, i: int, p: int, vs: Seq<ValueM>, es: Seq<EntryM>)
    requires
        reopenable(d),
        0 <= i < d.len(),
        0 <= p <= u64::MAX,
        values_ok(vs),
        values_check(d[i], vs) is Ok,
        expected_entries(d[i], vs, p) == Some(es),
        update_row_spec(d[i], p, vs, es) is Some,
    ensures
        replay_from(d, pending, seq![crate::statements::update_payload(d[i], p, vs, es)]) == Ok::<
            (Seq<TableM>, Seq<EntryM>),
            CheckLabel,
        >((d.update(i, update_row_spec(d[i], p, vs, es)->Some_0), pending)),
        reopenable(d.update(i, update_row_spec(d[i], p, vs, es)->Some_0)),
        forall|r: int| #[trigger] index_room(d, r) ==> index_room(d.update(i, update_row_spec(d[i], p, vs, es)->Some_0), r),
{
    let t = d[i];
    lemma_find_own(d, i);
    lemma_entries_storable(t, vs, p);
    lemma_check_len(t, vs);
    let r = RecordM::UpdateRow { table: t.name, row_position: p as u64, values: vs, entries: es };
    lemma_one_record(d, pending, r);
    assert(crate::schema::same_entry_lists(es, es));
    lemma_update_row_storable(t, p, vs, es);
    lemma_table_storable_update(d, i, update_row_spec(t, p, vs, es)->Some_0);
}

/// A successful `UPDATE` appends the new row of its slot, which replays to
/// the table with that row; an update of a missing key appends nothing.
#[verifier::rlimit(40)]
proof fn lemma_update_replays(
    d: Seq<TableM>,
    pending: Seq<EntryM>,
    table: Seq<u8>,
    set_column: Seq<u8>,
    value: ValueM,
    where_column: Seq<u8>,
    key: i64,
    n: int,
)
    requires
        reopenable(d),
        statement_ok(StatementM::Update { table, set_column, value, where_column, key }),
        step_spec(d, StatementM::Update { table, set_column, value, where_column, key }, n) is Ok,
    ensures
        step_spec(d, StatementM::Update { table, set_column, value, where_column, key }, n) matches Ok((d2, ps, _))
            && replay_from(d, pending, ps) == Ok::<(Seq<TableM>, Seq<EntryM>), CheckLabel>((d2, pending))
            && reopenable(d2) && forall|r: int| #[trigger] index_room(d, r) ==> index_room(d2, r),
{
    reveal(step_spec);
    reveal_with_fuel(replay_from, 1);
    match update_check(d, table, set_column, value, where_column, key) {
        Ok(Some((i, p, vs, es))) => {
            lemma_update_check_some(d, table, set_column, value, where_column, key);
            lemma_update_some(d, pending, i, p, vs, es);
        },
        _ => {},
    }
}

proof fn lemma_update_check_some(
    d: Seq<TableM>,
    table: Seq<u8>,
    set_column: Seq<u8>,
    value: ValueM,
    where_column: Seq<u8>,
    key: i64,
)
    requires
        reopenable(d),
        value_ok(value),
        update_check(d, table, set_column, value, where_column, key) is Ok,
    ensures
        update_check(d, table, set_column, value, where_column, key) matches Ok(Some((i, p, vs, es))) ==> {
            &&& 0 <= i < d.len()
            &&& 0 <= p <= u64::MAX
            &&& values_ok(vs)
            &&& values_check(d[i], vs) is Ok
            &&& expected_entries(d[i], vs, p) == Some(es)
        },
{
    reveal(update_check);
    crate::schema::lemma_find_table(d, table);
    if let Ok(Some((i, p, vs, es))) = update_check(d, table, set_column, value, where_column, key) {
        let t = d[i];
        let s = crate::statements::column_from(t.columns, set_column, 0)->Some_0;
        crate::statements::lemma_column_from(t.columns, set_column, 0);
        lemma_check_len(t, vs);
        assert(live(t, p));
        assert(values_ok(row_at(t, p)));
        assert(vs == row_at(t, p).update(s, value));
        assert forall|j: int| 0 <= j < vs.len() implies value_ok(#[trigger] vs[j]) by {
            if j != s {
                assert(vs[j] == row_at(t, p)[j]);
            }
        }
    }
}

/// A successful `DELETE` appends the emptied slot, which replays to the
/// table without the row; a delete of a missing key appends nothing.
proof fn lemma_delete_replays(
    d: Seq<TableM>,
    pending: Seq<EntryM>,
    table: Seq<u8>,
    where_column: Seq<u8>,
    key: i64,
    n: int,
)
    requires
        reopenable(d),
        step_spec(d, StatementM::Delete { table, where_column, key }, n) is Ok,
    ensures
        step_spec(d, StatementM::Delete { table, where_column, key }, n) matches Ok((d2, ps, _)) && replay_from(
            d,
            pending,
            ps,
        ) == Ok::<(Seq<TableM>, Seq<EntryM>), CheckLabel>((d2, pending)) && reopenable(d2) && forall|r: int| #[trigger] index_room(d, r) ==> index_room(d2, r),
{
    reveal(step_spec);
    reveal(delete_check);
    reveal_with_fuel(replay_from, 1);
    match delete_check(d, table, where_column, key) {
        Ok(Some((i, p))) => {
            crate::schema::lemma_find_table(d, table);
            let t = d[i];
            lemma_find_own(d, i);
            let r = RecordM::DeleteRow { table: t.name, row_position: p as u64 };
            lemma_one_record(d, pending, r);
            let t2 = delete_row_spec(t, p)->Some_0;
            let old_es = expected_entries(t, row_at(t, p), p)->Some_0;
            lemma_drop_entries_shape(t.indexes, old_es, p as usize);
            assert(table_storable(t2)) by {
                assert forall|q: int| #[trigger] live(t2, q) implies values_ok(row_at(t2, q)) && row_at(t2, q).len() == t2.columns.len() by {
                    assert(live(t, q));
                }
            }
            lemma_table_storable_update(d, i, t2);
        },
        _ => {},
    }
}

/// A name the parser accepts for a table or a column, short enough for its
/// length field.
pub open spec fn name_ok(s: Seq<u8>) -> bool {
    crate::text::valid_identifier(s) && s.len() < 65536
}

proof fn lemma_name_storable(s: Seq<u8>)
    requires
        name_ok(s),
    ensures
        str16_ok(s),
{
    assert forall|i: int| 0 <= i < s.len() implies s[i] < 128 by {
        if i > 0 {
            assert(crate::text::is_ident_continue(s[i]));
        }
    }
    crate::record::lemma_ascii_valid_utf8(s);
}

proof fn lemma_no_duplicate_from(cs: Seq<ColumnM>, j: int, k: int)
    requires
        0 <= j <= k < cs.len(),
        crate::statements::duplicate_column_from(cs, j) is None,
    ensures
        !exists|i: int| 0 <= i < k && same_name(#[trigger] cs[i].name, cs[k].name),
    decreases k - j,
{
    if j < k {
        lemma_no_duplicate_from(cs, j + 1, k);
    }
}

proof fn lemma_no_text_key_from(cs: Seq<ColumnM>, j: int, k: int)
    requires
        0 <= j <= k < cs.len(),
        crate::statements::text_key_column_from(cs, j) is None,
    ensures
        cs[k].is_primary_key ==> cs[k].column_type == crate::record::ColumnType::Int,
    decreases k - j,
{
    if j < k {
        lemma_no_text_key_from(cs, j + 1, k);
    }
}

proof fn lemma_key_count(cs: Seq<ColumnM>, n: int, a: int, b: int)
    requires
        0 <= a < b < n <= cs.len(),
        cs[a].is_primary_key,
        cs[b].is_primary_key,
    ensures
        crate::statements::key_column_count(cs, n) >= 2,
    decreases n,
{
    if b < n - 1 {
        lemma_key_count(cs, n - 1, a, b);
        lemma_key_count_nonneg(cs, n);
    } else {
        lemma_key_count_one(cs, n - 1, a);
    }
}

proof fn lemma_key_count_nonneg(cs: Seq<ColumnM>, n: int)
    ensures
        crate::statements::key_column_count(cs, n) >= 0,
        n > 0 ==> crate::statements::key_column_count(cs, n) >= crate::statements::key_column_count(cs, n - 1),
    decreases n,
{
    if n > 0 {
        lemma_key_count_nonneg(cs, n - 1);
    }
}

proof fn lemma_key_count_one(cs: Seq<ColumnM>, n: int, a: int)
    requires
        0 <= a < n <= cs.len(),
        cs[a].is_primary_key,
    ensures
        crate::statements::key_column_count(cs, n) >= 1,
    decreases n,
{
    lemma_key_count_nonneg(cs, n);
    lemma_key_count_nonneg(cs, n - 1);
    if a < n - 1 {
        lemma_key_count_one(cs, n - 1, a);
    }
}

/// The columns a checked `CREATE TABLE` gives: distinct valid names, at
/// most one primary key, which is `INT`.
pub open spec fn columns_checked(cs: Seq<ColumnM>) -> bool {
    &&& forall|k: int| 0 <= k < cs.len() ==> crate::text::valid_identifier(#[trigger] cs[k].name)
    &&& forall|i: int, k: int| 0 <= i < k < cs.len() ==> !same_name(#[trigger] cs[i].name, #[trigger] cs[k].name)
    &&& forall|k: int| 0 <= k < cs.len() && #[trigger] cs[k].is_primary_key ==> cs[k].column_type == crate::record::ColumnType::Int
    &&& forall|a: int, b: int| 0 <= a < cs.len() && 0 <= b < cs.len() && #[trigger] cs[a].is_primary_key && #[trigger] cs[b].is_primary_key ==> a == b
}

proof fn lemma_catalog_columns(cs: Seq<ColumnM>, j: int, pk: Option<usize>)
    requires
        0 <= j <= cs.len(),
        cs.len() < 65536,
        columns_checked(cs),
        pk matches Some(q) ==> q < j && cs[q as int].is_primary_key,
        pk is None ==> forall|k: int| 0 <= k < j ==> !(#[trigger] cs[k]).is_primary_key,
    ensures
        crate::replay::catalog_columns(cs, j, pk) == Some(
            match crate::record::first_primary_key(cs) {
                Some(p) => Some(p as usize),
                None => None::<usize>,
            },
        ),
    decreases cs.len() - j,
{
    crate::statements::lemma_first_primary_key_bound(cs);
    if j < cs.len() {
        assert(!exists|i: int| 0 <= i < j && same_name(#[trigger] cs[i].name, cs[j].name)) by {
            if exists|i: int| 0 <= i < j && same_name(#[trigger] cs[i].name, cs[j].name) {
                let i = choose|i: int| 0 <= i < j && same_name(#[trigger] cs[i].name, cs[j].name);
                assert(!same_name(cs[i].name, cs[j].name));
            }
        }
        if cs[j].is_primary_key {
            if let Some(q) = pk {
                assert(q as int == j);
            }
            lemma_catalog_columns(cs, j + 1, Some(j as usize));
        } else {
            lemma_catalog_columns(cs, j + 1, pk);
        }
    } else {
        match pk {
            Some(q) => {
                let p = crate::record::first_primary_key(cs)->Some_0;
                assert(p == q);
            },
            None => {},
        }
    }
}

/// A successful `CREATE TABLE` appends its catalog record, which replays
/// to the database with the new, empty table.
proof fn lemma_create_table_replays(d: Seq<TableM>, pending: Seq<EntryM>, table: Seq<u8>, columns: Seq<ColumnM>, n: int)
    requires
        reopenable(d),
        statement_ok(StatementM::CreateTable { table, columns }),
        step_spec(d, StatementM::CreateTable { table, columns }, n) is Ok,
    ensures
        step_spec(d, StatementM::CreateTable { table, columns }, n) matches Ok((d2, ps, _)) && replay_from(d, pending, ps)
            == Ok::<(Seq<TableM>, Seq<EntryM>), CheckLabel>((d2, pending)) && reopenable(d2) && forall|r: int| #[trigger] index_room(d, r) ==> index_room(d2, r),
{
    reveal(step_spec);
    crate::schema::lemma_find_table(d, table);
    let cs = columns;
    assert(crate::statements::create_table_check(d, table, cs) is Ok);
    assert forall|i: int, k: int| 0 <= i < k < cs.len() implies !same_name(#[trigger] cs[i].name, #[trigger] cs[k].name) by {
        lemma_no_duplicate_from(cs, 0, k);
    }
    assert forall|k: int| 0 <= k < cs.len() && #[trigger] cs[k].is_primary_key implies cs[k].column_type
        == crate::record::ColumnType::Int by {
        lemma_no_text_key_from(cs, 0, k);
    }
    assert forall|a: int, b: int|
        0 <= a < cs.len() && 0 <= b < cs.len() && #[trigger] cs[a].is_primary_key && #[trigger] cs[b].is_primary_key implies a
        == b by {
        if a < b {
            lemma_key_count(cs, cs.len() as int, a, b);
        } else if b < a {
            lemma_key_count(cs, cs.len() as int, b, a);
        }
    }
    assert forall|k: int| 0 <= k < cs.len() implies crate::text::valid_identifier(#[trigger] cs[k].name) by {
        assert(name_ok(cs[k].name));
    }
    lemma_catalog_columns(cs, 0, None);
    lemma_name_storable(table);
    assert forall|k: int| 0 <= k < cs.len() implies str16_ok(#[trigger] cs[k].name) by {
        assert(name_ok(cs[k].name));
        lemma_name_storable(cs[k].name);
    }
    let r = RecordM::Catalog { table, columns: cs };
    lemma_one_record(d, pending, r);
    let t = crate::statements::new_table(table, cs);
    let d2 = d.push(t);
    assert(table_storable(t));
    assert forall|a: int, b: int| 0 <= a < b < d2.len() implies !same_name(#[trigger] d2[a].name, #[trigger] d2[b].name) by {
        if b == d.len() {
            assert(!same_name(d[a].name, table));
        } else {
            assert(d2[a] == d[a] && d2[b] == d[b]);
        }
    }
    assert forall|i: int| 0 <= i < d2.len() implies table_storable(#[trigger] d2[i]) by {
        if i < d.len() {
            assert(d2[i] == d[i]);
        }
    }
    assert forall|r: int| #[trigger] index_room(d, r) implies index_room(d2, r) by {
        assert forall|k: int| 0 <= k < d2.len() implies (#[trigger] d2[k]).indexes.len() + r < 65536 by {
            if k < d.len() {
                assert(d2[k] == d[k]);
            }
        }
    }
}

/// A successful query appends nothing and leaves the tables as they are.
proof fn lemma_select_replays(d: Seq<TableM>, pending: Seq<EntryM>, st: StatementM, n: int)
    requires
        reopenable(d),
        st is SelectAll || st is SelectWhere,
        step_spec(d, st, n) is Ok,
    ensures
        step_spec(d, st, n) matches Ok((d2, ps, _)) && replay_from(d, pending, ps) == Ok::<
            (Seq<TableM>, Seq<EntryM>),
            CheckLabel,
        >((d2, pending)) && reopenable(d2) && forall|r: int| #[trigger] index_room(d, r) ==> index_room(d2, r),
{
    reveal(step_spec);
    reveal_with_fuel(replay_from, 1);
}

/// Every waiting entry belongs to a build started before record `n`.
pub open spec fn pending_below(pending: Seq<EntryM>, n: int) -> bool {
    forall|k: int| 0 <= k < pending.len() ==> (#[trigger] pending[k]).build_id < n
}

proof fn lemma_backfill_shape(x: crate::schema::IndexM, t: TableM, m: int)
    ensures
        crate::statements::backfill(x, t, m) matches Some(es) ==> forall|k: int|
            0 <= k < es.len() ==> (#[trigger] es[k]).build_id == x.build_id && es[k].index_name == x.name,
    decreases m,
{
    if m > 0 {
        lemma_backfill_shape(x, t, m - 1);
    }
}

/// The records of the entries of a build.
pub open spec fn entry_records(es: Seq<EntryM>) -> Seq<Seq<u8>> {
    es.map_values(|e: EntryM| encode_record(RecordM::Entry { entry: e }))
}

proof fn lemma_entries_replay(d: Seq<TableM>, pending: Seq<EntryM>, es: Seq<EntryM>)
    requires
        forall|k: int| 0 <= k < es.len() ==> str16_ok(#[trigger] es[k].index_name),
    ensures
        replay_from(d, pending, entry_records(es)) == Ok::<(Seq<TableM>, Seq<EntryM>), CheckLabel>((d, pending + es)),
    decreases es.len(),
{
    reveal_with_fuel(replay_from, 1);
    let ps = entry_records(es);
    if es.len() == 0 {
        assert(pending + es =~= pending);
    } else {
        assert forall|k: int| 0 <= k < es.drop_last().len() implies str16_ok(#[trigger] es.drop_last()[k].index_name) by {
            assert(es.drop_last()[k] == es[k]);
        }
        lemma_entries_replay(d, pending, es.drop_last());
        assert(ps.drop_last() =~= entry_records(es.drop_last()));
        assert(str16_ok(es.last().index_name));
        lemma_decode_encode(RecordM::Entry { entry: es.last() });
        assert(ps.last() == encode_record(RecordM::Entry { entry: es.last() }));
        assert(pending + es =~= (pending + es.drop_last()).push(es.last()));
    }
}

proof fn lemma_other_builds(a: Seq<EntryM>, name: Seq<u8>, bid: u64)
    requires
        forall|k: int| 0 <= k < a.len() ==> !crate::replay::same_build(#[trigger] a[k], name, bid),
    ensures
        crate::replay::group_of(a, name, bid) == Seq::<EntryM>::empty(),
        crate::replay::without_group(a, name, bid) == a,
    decreases a.len(),
{
    if a.len() > 0 {
        assert forall|k: int| 0 <= k < a.drop_last().len() implies !crate::replay::same_build(#[trigger] a.drop_last()[k], name, bid) by {
            assert(a.drop_last()[k] == a[k]);
        }
        lemma_other_builds(a.drop_last(), name, bid);
        assert(a.drop_last().push(a.last()) =~= a);
    }
}

proof fn lemma_groups(a: Seq<EntryM>, es: Seq<EntryM>, name: Seq<u8>, bid: u64)
    requires
        forall|k: int| 0 <= k < a.len() ==> !crate::replay::same_build(#[trigger] a[k], name, bid),
        forall|k: int| 0 <= k < es.len() ==> crate::replay::same_build(#[trigger] es[k], name, bid),
    ensures
        crate::replay::group_of(a + es, name, bid) == es,
        crate::replay::without_group(a + es, name, bid) == a,
    decreases es.len(),
{
    if es.len() == 0 {
        assert(a + es =~= a);
        lemma_other_builds(a, name, bid);
    } else {
        assert forall|k: int| 0 <= k < es.drop_last().len() implies crate::replay::same_build(#[trigger] es.drop_last()[k], name, bid) by {
            assert(es.drop_last()[k] == es[k]);
        }
        lemma_groups(a, es.drop_last(), name, bid);
        assert((a + es).drop_last() =~= a + es.drop_last());
        assert((a + es).last() == es.last());
        assert(es.drop_last().push(es.last()) =~= es);
    }
}

proof fn lemma_same_name_refl(s: Seq<u8>)
    ensures
        same_name(s, s),
{
}

/// What a successful `CREATE INDEX` check establishes.
pub open spec fn index_checked(
    d: Seq<TableM>,
    bid: u64,
    index: Seq<u8>,
    i: int,
    c: int,
    mode: crate::record::TieBreakMode,
    es: Seq<EntryM>,
) -> bool {
    &&& 0 <= i < d.len()
    &&& 0 <= c < d[i].columns.len()
    &&& !crate::schema::has_index_named(d, index)
    &&& d[i].columns[c].column_type == crate::record::ColumnType::Int
    &&& (mode == crate::record::TieBreakMode::PrimaryKey ==> d[i].pk is Some)
    &&& crate::statements::backfill(
        crate::schema::IndexM { build_id: bid, name: index, column: c as usize, mode, entries: Map::empty() },
        d[i],
        d[i].rows.len() as int,
    ) == Some(es)
}

pub proof fn lemma_index_check_facts(d: Seq<TableM>, bid: u64, index: Seq<u8>, table: Seq<u8>, column: Seq<u8>)
    requires
        crate::statements::create_index_check(d, bid, index, table, column) is Ok,
    ensures
        ({
            let (i, c, mode, es) = crate::statements::create_index_check(d, bid, index, table, column)->Ok_0;
            index_checked(d, bid, index, i, c, mode, es) && find_table(d, table) == Some(i)
        }),
{
    reveal(crate::statements::create_index_check);
    crate::schema::lemma_find_table(d, table);
    let i = find_table(d, table)->Some_0;
    crate::statements::lemma_column_from(d[i].columns, column, 0);
}

proof fn lemma_metadata_replays(
    d: Seq<TableM>,
    pending: Seq<EntryM>,
    bid: u64,
    index: Seq<u8>,
    i: int,
    c: int,
    mode: crate::record::TieBreakMode,
    es: Seq<EntryM>,
    m: Map<(i64, i64), usize>,
)
    requires
        reopenable(d),
        name_ok(index),
        index_checked(d, bid, index, i, c, mode, es),
        forall|k: int| 0 <= k < pending.len() ==> (#[trigger] pending[k]).build_id < bid,
        crate::statements::fill_entries(Map::empty(), es) == Some(m),
    ensures
        replay_from(
            d,
            pending + es,
            seq![
                encode_record(
                    RecordM::Metadata {
                        build_id: bid,
                        index_name: index,
                        table_name: d[i].name,
                        indexed_column: c as u16,
                        tie_break_mode: mode,
                    },
                ),
            ],
        ) == Ok::<(Seq<TableM>, Seq<EntryM>), CheckLabel>(
            (d.update(i, crate::statements::with_new_index(d[i], bid, index, c, mode, m)), pending),
        ),
{
    let t = d[i];
    lemma_find_own(d, i);
    let x = crate::schema::IndexM { build_id: bid, name: index, column: c as usize, mode, entries: Map::empty() };
    lemma_backfill_shape(x, t, t.rows.len() as int);
    lemma_name_storable(index);
    let meta = RecordM::Metadata {
        build_id: bid,
        index_name: index,
        table_name: t.name,
        indexed_column: c as u16,
        tie_break_mode: mode,
    };
    lemma_one_record(d, pending + es, meta);
    lemma_same_name_refl(index);
    assert forall|k: int| 0 <= k < pending.len() implies !crate::replay::same_build(#[trigger] pending[k], index, bid) by {}
    assert forall|k: int| 0 <= k < es.len() implies crate::replay::same_build(#[trigger] es[k], index, bid) by {}
    lemma_groups(pending, es, index, bid);
    assert(crate::schema::same_entry_lists(es, es));
    assert((c as u16) as int == c);
}

pub proof fn lemma_create_index_step(d: Seq<TableM>, index: Seq<u8>, table: Seq<u8>, column: Seq<u8>, n: int)
    requires
        step_spec(d, StatementM::CreateIndex { index, table, column }, n) is Ok,
    ensures
        crate::statements::create_index_outcome(d, n as u64, index, table, column) is Ok,
        step_spec(d, StatementM::CreateIndex { index, table, column }, n) == Ok::<
            (Seq<TableM>, Seq<Seq<u8>>, Seq<u8>),
            (SqlErrorM, Seq<Seq<u8>>),
        >(
            (
                crate::statements::create_index_outcome(d, n as u64, index, table, column)->Ok_0.0,
                crate::statements::create_index_outcome(d, n as u64, index, table, column)->Ok_0.1,
                Seq::empty(),
            ),
        ),
{
    reveal(step_spec);
}

pub proof fn lemma_create_index_outcome(d: Seq<TableM>, bid: u64, index: Seq<u8>, table: Seq<u8>, column: Seq<u8>)
    requires
        crate::statements::create_index_outcome(d, bid, index, table, column) is Ok,
    ensures
        crate::statements::create_index_check(d, bid, index, table, column) is Ok,
        ({
            let (i, c, mode, es) = crate::statements::create_index_check(d, bid, index, table, column)->Ok_0;
            let (d2, ps) = crate::statements::create_index_outcome(d, bid, index, table, column)->Ok_0;
            &&& crate::statements::fill_entries(Map::empty(), es) is Some
            &&& ps == crate::statements::create_index_payloads(bid, index, d[i], c, mode, es)
            &&& d2 == d.update(
                i,
                crate::statements::with_new_index(
                    d[i],
                    bid,
                    index,
                    c,
                    mode,
                    crate::statements::fill_entries(Map::empty(), es)->Some_0,
                ),
            )
        }),
{
    reveal(crate::statements::create_index_outcome);
}

proof fn lemma_new_index_storable(
    d: Seq<TableM>,
    i: int,
    bid: u64,
    index: Seq<u8>,
    c: int,
    mode: crate::record::TieBreakMode,
    m: Map<(i64, i64), usize>,
)
    requires
        reopenable(d),
        index_room(d, 1),
        0 <= i < d.len(),
        name_ok(index),
    ensures
        reopenable(d.update(i, crate::statements::with_new_index(d[i], bid, index, c, mode, m))),
        forall|r: int| 0 <= r && #[trigger] index_room(d, r + 1) ==> index_room(
            d.update(i, crate::statements::with_new_index(d[i], bid, index, c, mode, m)),
            r,
        ),
{
    let t = d[i];
    let t2 = crate::statements::with_new_index(t, bid, index, c, mode, m);
    let d2 = d.update(i, t2);
    lemma_name_storable(index);
    assert(table_storable(t2)) by {
        assert forall|j: int| 0 <= j < t2.indexes.len() implies str16_ok(#[trigger] t2.indexes[j].name) by {
            if j < t.indexes.len() {
                assert(t2.indexes[j] == t.indexes[j]);
            }
        }
        assert forall|p: int| #[trigger] live(t2, p) implies values_ok(row_at(t2, p)) && row_at(t2, p).len()
            == t2.columns.len() by {
            assert(live(t, p));
        }
    }
    assert forall|a: int, b: int| 0 <= a < b < d2.len() implies !same_name(#[trigger] d2[a].name, #[trigger] d2[b].name) by {
        assert(d2[a].name == d[a].name);
        assert(d2[b].name == d[b].name);
    }
    assert forall|k: int| 0 <= k < d2.len() implies table_storable(#[trigger] d2[k]) by {
        if k != i {
            assert(d2[k] == d[k]);
        }
    }
    assert forall|r: int| 0 <= r && #[trigger] index_room(d, r + 1) implies index_room(d2, r) by {
        assert forall|k: int| 0 <= k < d2.len() implies (#[trigger] d2[k]).indexes.len() + r < 65536 by {
            assert(d[k].indexes.len() + r + 1 < 65536);
        }
    }
}

/// A successful `CREATE INDEX` appends one record per entry of the
/// existing rows, then its metadata; they replay to the table with the new
/// index, the entries waiting before untouched.
proof fn lemma_create_index_replays(
    d: Seq<TableM>,
    pending: Seq<EntryM>,
    index: Seq<u8>,
    table: Seq<u8>,
    column: Seq<u8>,
    n: int,
)
    requires
        reopenable(d),
        index_room(d, 1),
        name_ok(index),
        pending_below(pending, n),
        0 <= n <= u64::MAX,
        step_spec(d, StatementM::CreateIndex { index, table, column }, n) is Ok,
    ensures
        step_spec(d, StatementM::CreateIndex { index, table, column }, n) matches Ok((d2, ps, _)) && replay_from(
            d,
            pending,
            ps,
        ) == Ok::<(Seq<TableM>, Seq<EntryM>), CheckLabel>((d2, pending)) && reopenable(d2) && forall|r: int|
            0 <= r && #[trigger] index_room(d, r + 1) ==> index_room(d2, r),
{
    let bid = n as u64;
    lemma_create_index_step(d, index, table, column, n);
    lemma_create_index_outcome(d, bid, index, table, column);
    lemma_index_check_facts(d, bid, index, table, column);
    let (i, c, mode, es) = crate::statements::create_index_check(d, bid, index, table, column)->Ok_0;
    let t = d[i];
    let x = crate::schema::IndexM { build_id: bid, name: index, column: c as usize, mode, entries: Map::empty() };
    lemma_backfill_shape(x, t, t.rows.len() as int);
    lemma_name_storable(index);
    assert forall|k: int| 0 <= k < es.len() implies str16_ok(#[trigger] es[k].index_name) by {}
    let meta = RecordM::Metadata {
        build_id: bid,
        index_name: index,
        table_name: t.name,
        indexed_column: c as u16,
        tie_break_mode: mode,
    };
    let ps = crate::statements::create_index_payloads(bid, index, t, c, mode, es);
    assert(ps =~= entry_records(es) + seq![encode_record(meta)]);
    lemma_replay_from_concat(d, pending, entry_records(es), seq![encode_record(meta)]);
    lemma_entries_replay(d, pending, es);
    let m = crate::statements::fill_entries(Map::empty(), es)->Some_0;
    lemma_metadata_replays(d, pending, bid, index, i, c, mode, es, m);
    lemma_new_index_storable(d, i, bid, index, c, mode, m);
}

/// How many indexes a statement adds: one for `CREATE INDEX`.
pub open spec fn builds(st: StatementM) -> int {
    if st is CreateIndex {
        1
    } else {
        0
    }
}

/// One successful statement appends records that replay to the tables it
/// left, the waiting entries untouched.
proof fn lemma_step_replays(d: Seq<TableM>, pending: Seq<EntryM>, st: StatementM, n: int)
    requires
        reopenable(d),
        index_room(d, builds(st)),
        statement_ok(st),
        pending_below(pending, n),
        0 <= n <= u64::MAX,
        step_spec(d, st, n) is Ok,
    ensures
        step_spec(d, st, n) matches Ok((d2, ps, _)) && replay_from(d, pending, ps) == Ok::<
            (Seq<TableM>, Seq<EntryM>),
            CheckLabel,
        >((d2, pending)) && reopenable(d2) && forall|r: int| 0 <= r && #[trigger] index_room(d, r + builds(st)) ==> index_room(d2, r),
{
    match st {
        StatementM::CreateTable { table, columns } => lemma_create_table_replays(d, pending, table, columns, n),
        StatementM::Insert { table, values } => lemma_insert_replays(d, pending, table, values, n),
        StatementM::Update { table, set_column, value, where_column, key } => lemma_update_replays(
            d,
            pending,
            table,
            set_column,
            value,
            where_column,
            key,
            n,
        ),
        StatementM::Delete { table, where_column, key } => lemma_delete_replays(d, pending, table, where_column, key, n),
        StatementM::CreateIndex { index, table, column } => lemma_create_index_replays(d, pending, index, table, column, n),
        _ => lemma_select_replays(d, pending, st, n),
    }
}
/// Replaying `a` then `b` is replaying `b` from where `a` left off.
proof fn lemma_replay_from_concat(d: Seq<TableM>, pending: Seq<EntryM>, a: Seq<Seq<u8>>, b: Seq<Seq<u8>>)
    ensures
        replay_from(d, pending, a + b) == match replay_from(d, pending, a) {
            Err(l) => Err(l),
            Ok((d1, p1)) => replay_from(d1, p1, b),
        },
    decreases b.len(),
{
    reveal_with_fuel(replay_from, 1);
    if b.len() == 0 {
        assert(a + b =~= a);
    } else {
        lemma_replay_from_concat(d, pending, a, b.drop_last());
        assert((a + b).drop_last() =~= a + b.drop_last());
        assert((a + b).last() == b.last());
    }
}

/// Every statement is one the parser gives.
pub open spec fn statements_ok(sts: Seq<StatementM>) -> bool {
    forall|k: int| 0 <= k < sts.len() ==> statement_ok(#[trigger] sts[k])
}

/// How many indexes the statements add.
pub open spec fn index_builds(sts: Seq<StatementM>) -> int
    decreases sts.len(),
{
    if sts.len() == 0 {
        0
    } else {
        index_builds(sts.drop_last()) + builds(sts.last())
    }
}

proof fn lemma_run_replays(d0: Seq<TableM>, pending: Seq<EntryM>, sts: Seq<StatementM>, n: int, r: int)
    requires
        reopenable(d0),
        crate::consistency::reopen_consistent(d0, pending),
        0 <= r,
        index_room(d0, r + index_builds(sts)),
        statements_ok(sts),
        pending_below(pending, n),
        0 <= n,
    ensures
        run_spec(d0, sts, n).0 matches Ok((d1, _)) ==> (n + run_spec(d0, sts, n).1.len() <= u64::MAX ==> replay_from(
            d0,
            pending,
            run_spec(d0, sts, n).1,
        ) == Ok::<(Seq<TableM>, Seq<EntryM>), CheckLabel>((d1, pending)) && reopenable(d1) && index_room(d1, r)
            && crate::consistency::reopen_consistent(d1, pending)),
    decreases sts.len(),
{
    if sts.len() == 0 {
        reveal_with_fuel(replay_from, 1);
    } else {
        let init = sts.drop_last();
        let st = sts.last();
        assert forall|k: int| 0 <= k < init.len() implies statement_ok(#[trigger] init[k]) by {
            assert(init[k] == sts[k]);
        }
        assert(st == sts[sts.len() - 1]);
        lemma_builds_nonneg(init);
        lemma_run_replays(d0, pending, init, n, r + builds(st));
        let (before, ps0) = run_spec(d0, init, n);
        if let Ok((d1, out)) = before {
            let m = n + ps0.len();
            if step_spec(d1, st, m) is Ok {
                let ps1 = step_spec(d1, st, m)->Ok_0.1;
                if m + ps1.len() <= u64::MAX {
                    assert(index_room(d1, r + builds(st)));
                    assert(index_room(d1, builds(st)));
                    lemma_step_replays(d1, pending, st, m);
                    crate::consistency::lemma_step_consistent(d1, pending, st, m);
                    lemma_replay_from_concat(d0, pending, ps0, ps1);
                }
            }
        }
    }
}

proof fn lemma_builds_nonneg(sts: Seq<StatementM>)
    ensures
        index_builds(sts) >= 0,
    decreases sts.len(),
{
    if sts.len() > 0 {
        lemma_builds_nonneg(sts.drop_last());
    }
}

/// What a replayed table keeps: its name and the names of its indexes fit
/// their length fields and are UTF-8, its column count fits its field,
/// every stored row has a storable value per column, and no two of its
/// indexes share a name.
pub open spec fn table_replayed_ok(t: TableM) -> bool {
    &&& str16_ok(t.name)
    &&& t.columns.len() < 65536
    &&& forall|j: int| 0 <= j < t.indexes.len() ==> str16_ok(#[trigger] t.indexes[j].name)
    &&& forall|p: int| #[trigger] live(t, p) ==> values_ok(row_at(t, p)) && row_at(t, p).len() == t.columns.len()
    &&& crate::consistency::table_names_distinct(t)
}

/// What replaying records always leaves: tables as `table_replayed_ok`
/// says, no two of them sharing a name.
pub open spec fn replayed_ok(d: Seq<TableM>) -> bool {
    &&& forall|i: int| 0 <= i < d.len() ==> table_replayed_ok(#[trigger] d[i])
    &&& forall|i: int, j: int| 0 <= i < j < d.len() ==> !same_name(#[trigger] d[i].name, #[trigger] d[j].name)
}

proof fn lemma_replace_replayed(d: Seq<TableM>, i: int, t: TableM)
    requires
        replayed_ok(d),
        0 <= i < d.len(),
        t.name == d[i].name,
        table_replayed_ok(t),
    ensures
        replayed_ok(d.update(i, t)),
{
    let d2 = d.update(i, t);
    assert forall|a: int| 0 <= a < d2.len() implies table_replayed_ok(#[trigger] d2[a]) by {
        if a != i {
            assert(d2[a] == d[a]);
        }
    }
    assert forall|a: int, b: int| 0 <= a < b < d2.len() implies !same_name(#[trigger] d2[a].name, #[trigger] d2[b].name) by {
        assert(d2[a].name == d[a].name);
        assert(d2[b].name == d[b].name);
    }
}

proof fn lemma_values_check_len(t: TableM, vs: Seq<ValueM>)
    requires
        values_check(t, vs) is Ok,
    ensures
        vs.len() == t.columns.len(),
{
}

/// Adding a row slot holding `vs` to a table, with its indexes reshaped
/// without changing their names, keeps what a replayed table keeps.
proof fn lemma_row_added(t: TableM, t2: TableM, vs: Seq<ValueM>)
    requires
        table_replayed_ok(t),
        values_ok(vs),
        vs.len() == t.columns.len(),
        t2.name == t.name,
        t2.columns == t.columns,
        t2.rows == t.rows.push(Some(vs)),
        t2.indexes.len() == t.indexes.len(),
        forall|k: int| 0 <= k < t2.indexes.len() ==> (#[trigger] t2.indexes[k]).name == t.indexes[k].name,
    ensures
        table_replayed_ok(t2),
{
    assert forall|p: int| #[trigger] live(t2, p) implies values_ok(row_at(t2, p)) && row_at(t2, p).len() == t2.columns.len() by {
        if p < t.rows.len() {
            assert(t2.rows[p] == t.rows[p]);
            assert(live(t, p));
        }
    }
    assert forall|j: int| 0 <= j < t2.indexes.len() implies str16_ok(#[trigger] t2.indexes[j].name) by {
        assert(t2.indexes[j].name == t.indexes[j].name);
    }
    assert forall|a: int, b: int| 0 <= a < b < t2.indexes.len() implies !same_name(
        #[trigger] t2.indexes[a].name,
        #[trigger] t2.indexes[b].name,
    ) by {
        assert(t2.indexes[a].name == t.indexes[a].name);
        assert(t2.indexes[b].name == t.indexes[b].name);
    }
}

/// Putting `row` (a storable row, or none) into an existing slot, with the
/// indexes reshaped without changing their names, keeps what a replayed
/// table keeps.
proof fn lemma_slot_replaced(t: TableM, t2: TableM, p0: int, row: Option<Seq<ValueM>>)
    requires
        table_replayed_ok(t),
        0 <= p0 < t.rows.len(),
        row matches Some(vs) ==> values_ok(vs) && vs.len() == t.columns.len(),
        t2.name == t.name,
        t2.columns == t.columns,
        t2.rows == t.rows.update(p0, row),
        t2.indexes.len() == t.indexes.len(),
        forall|k: int| 0 <= k < t2.indexes.len() ==> (#[trigger] t2.indexes[k]).name == t.indexes[k].name,
    ensures
        table_replayed_ok(t2),
{
    assert forall|p: int| #[trigger] live(t2, p) implies values_ok(row_at(t2, p)) && row_at(t2, p).len() == t2.columns.len() by {
        if p != p0 {
            assert(t2.rows[p] == t.rows[p]);
            assert(live(t, p));
        }
    }
    assert forall|j: int| 0 <= j < t2.indexes.len() implies str16_ok(#[trigger] t2.indexes[j].name) by {
        assert(t2.indexes[j].name == t.indexes[j].name);
    }
    assert forall|a: int, b: int| 0 <= a < b < t2.indexes.len() implies !same_name(
        #[trigger] t2.indexes[a].name,
        #[trigger] t2.indexes[b].name,
    ) by {
        assert(t2.indexes[a].name == t.indexes[a].name);
        assert(t2.indexes[b].name == t.indexes[b].name);
    }
}

#[verifier::spinoff_prover]
#[verifier::rlimit(40)]
proof fn lemma_step_replayed_ok(db: Seq<TableM>, pending: Seq<EntryM>, rec: RecordM)
    requires
        replayed_ok(db),
        crate::record::decoded_fits(rec),
        replay_step(db, pending, rec) is Ok,
    ensures
        replayed_ok(replay_step(db, pending, rec)->Ok_0.0),
{
    match rec {
        RecordM::Catalog { table, columns } => {
            crate::schema::lemma_find_table(db, table);
            let t = TableM {
                name: table,
                columns,
                rows: Seq::empty(),
                pk: crate::replay::catalog_ok(table, columns)->Some_0,
                primary: Map::empty(),
                indexes: Seq::empty(),
            };
            let d2 = db.push(t);
            assert(d2 == replay_step(db, pending, rec)->Ok_0.0);
            assert forall|a: int| 0 <= a < d2.len() implies table_replayed_ok(#[trigger] d2[a]) by {
                if a < db.len() {
                    assert(d2[a] == db[a]);
                }
            }
            assert forall|a: int, b: int| 0 <= a < b < d2.len() implies !same_name(#[trigger] d2[a].name, #[trigger] d2[b].name) by {
                assert(d2[a] == db[a]);
                if b < db.len() {
                    assert(d2[b] == db[b]);
                }
            }
        },
        RecordM::Row { table, values } => {
            let i = find_table(db, table)->Some_0;
            crate::schema::lemma_find_table(db, table);
            lemma_values_check_len(db[i], values);
            let t2 = append_row_spec(db[i], values)->Some_0;
            lemma_row_added(db[i], t2, values);
            lemma_replace_replayed(db, i, t2);
        },
        RecordM::Entry { .. } => {},
        RecordM::Metadata { build_id, index_name, table_name, indexed_column, tie_break_mode } => {
            let i = find_table(db, table_name)->Some_0;
            crate::schema::lemma_find_table(db, table_name);
            let t = db[i];
            let group = crate::replay::group_of(pending, index_name, build_id);
            let m = crate::statements::fill_entries(Map::empty(), group)->Some_0;
            let t2 = crate::statements::with_new_index(t, build_id, index_name, indexed_column as int, tie_break_mode, m);
            assert(replay_step(db, pending, rec)->Ok_0.0 == db.update(i, t2));
            assert(!crate::schema::has_index_named(db, index_name));
            assert forall|j: int| 0 <= j < t2.indexes.len() implies str16_ok(#[trigger] t2.indexes[j].name) by {
                if j < t.indexes.len() {
                    assert(t2.indexes[j] == t.indexes[j]);
                }
            }
            assert forall|p: int| #[trigger] live(t2, p) implies values_ok(row_at(t2, p)) && row_at(t2, p).len()
                == t2.columns.len() by {
                assert(live(t, p));
            }
            assert forall|a: int, b: int| 0 <= a < b < t2.indexes.len() implies !same_name(
                #[trigger] t2.indexes[a].name,
                #[trigger] t2.indexes[b].name,
            ) by {
                assert(t2.indexes[a] == t.indexes[a]);
                if b < t.indexes.len() {
                    assert(t2.indexes[b] == t.indexes[b]);
                } else {
                    if same_name(t.indexes[a].name, index_name) {
                        assert(crate::schema::has_index_named(db, index_name));
                    }
                }
            }
            lemma_replace_replayed(db, i, t2);
        },
        RecordM::IndexedRow { table, values, entries } => {
            let i = find_table(db, table)->Some_0;
            crate::schema::lemma_find_table(db, table);
            let t = db[i];
            lemma_values_check_len(t, values);
            let es = crate::rows::expected_entries(t, values, t.rows.len() as int)->Some_0;
            let xs = crate::rows::add_entries(t.indexes, es, t.rows.len() as usize)->Some_0;
            lemma_add_entries_shape(t.indexes, es, t.rows.len() as usize);
            let t2 = append_row_spec(TableM { indexes: xs, ..t }, values)->Some_0;
            lemma_row_added(t, t2, values);
            lemma_replace_replayed(db, i, t2);
        },
        RecordM::UpdateRow { table, row_position, values, entries } => {
            let i = find_table(db, table)->Some_0;
            crate::schema::lemma_find_table(db, table);
            let t = db[i];
            let p = row_position as int;
            lemma_values_check_len(t, values);
            let es = crate::rows::expected_entries(t, values, p)->Some_0;
            let t2 = update_row_spec(t, p, values, es)->Some_0;
            let old_es = crate::rows::expected_entries(t, row_at(t, p), p)->Some_0;
            let x1 = crate::rows::drop_entries(t.indexes, old_es, p as usize)->Some_0;
            lemma_drop_entries_shape(t.indexes, old_es, p as usize);
            lemma_add_entries_shape(x1, es, p as usize);
            lemma_slot_replaced(t, t2, p, Some(values));
            lemma_replace_replayed(db, i, t2);
        },
        RecordM::DeleteRow { table, row_position } => {
            let i = find_table(db, table)->Some_0;
            crate::schema::lemma_find_table(db, table);
            let t = db[i];
            let p = row_position as int;
            let t2 = delete_row_spec(t, p)->Some_0;
            let old_es = crate::rows::expected_entries(t, row_at(t, p), p)->Some_0;
            lemma_drop_entries_shape(t.indexes, old_es, p as usize);
            lemma_slot_replaced(t, t2, p, None);
            lemma_replace_replayed(db, i, t2);
        },
    }
}

/// Whatever records replay leaves tables as `replayed_ok` says.
pub proof fn lemma_prefix_replayed_ok(s: Seq<Seq<u8>>)
    requires
        replay_prefix(s) is Ok,
    ensures
        replayed_ok(replay_prefix(s)->Ok_0.0),
    decreases s.len(),
{
    if s.len() > 0 {
        lemma_prefix_replayed_ok(s.drop_last());
        let (db, pending) = replay_prefix(s.drop_last())->Ok_0;
        crate::record::lemma_decoded_fits(s.last());
        lemma_step_replayed_ok(db, pending, decode_spec(s.last())->Some_0);
    }
}

/// A table's primary index holds exactly its live rows by key: each key
/// leads to a live row whose key column holds that key, and each live row
/// holds an integer key that leads back to its slot. Without a primary key
/// the index is empty.
pub open spec fn primary_agrees(t: TableM) -> bool {
    match t.pk {
        None => t.primary == Map::<i64, usize>::empty(),
        Some(c) => {
            &&& forall|k: i64|
                #[trigger] t.primary.contains_key(k) ==> live(t, t.primary[k] as int) && row_at(t, t.primary[k] as int)[c as int]
                    == ValueM::Int(k)
            &&& forall|p: int|
                #[trigger] live(t, p) ==> (row_at(t, p)[c as int] matches ValueM::Int(k) && t.primary.contains_key(k)
                    && t.primary[k] == p)
        },
    }
}

/// Every table's primary index agrees with its live rows.
pub open spec fn primaries_agree(d: Seq<TableM>) -> bool {
    forall|i: int| 0 <= i < d.len() ==> primary_agrees(#[trigger] d[i])
}

proof fn lemma_append_agrees(t: TableM, t2: TableM, vs: Seq<ValueM>)
    requires
        primary_agrees(t),
        append_row_spec(t, vs) == Some(TableM { indexes: t2.indexes, ..t2 }),
        t2.pk == t.pk,
        t.rows.len() < usize::MAX,
    ensures
        primary_agrees(t2),
{
    let n = t.rows.len() as int;
    assert(t2.rows == t.rows.push(Some(vs)));
    match t.pk {
        None => {},
        Some(c) => {
            let k = match vs[c as int] {
                ValueM::Int(k) => k,
                ValueM::Text(_) => 0,
            };
            assert(vs[c as int] == ValueM::Int(k));
            assert(!t.primary.contains_key(k));
            assert(t2.primary == t.primary.insert(k, n as usize));
            assert forall|k2: i64| #[trigger] t2.primary.contains_key(k2) implies live(t2, t2.primary[k2] as int)
                && row_at(t2, t2.primary[k2] as int)[c as int] == ValueM::Int(k2) by {
                if k2 != k {
                    assert(t.primary.contains_key(k2));
                    let q = t.primary[k2] as int;
                    assert(live(t, q));
                    assert(t2.rows[q] == t.rows[q]);
                }
            }
            assert forall|p: int| #[trigger] live(t2, p) implies (row_at(t2, p)[c as int] matches ValueM::Int(k2)
                && t2.primary.contains_key(k2) && t2.primary[k2] == p) by {
                if p < n {
                    assert(t2.rows[p] == t.rows[p]);
                    assert(live(t, p));
                    let k2 = row_at(t, p)[c as int]->Int_0;
                    assert(t.primary.contains_key(k2));
                    assert(k2 != k);
                }
            }
        },
    }
}

proof fn lemma_slot_agrees(t: TableM, t2: TableM)
    requires
        primary_agrees(t),
        t2.pk == t.pk,
        t2.rows == t.rows,
        t2.primary == t.primary,
    ensures
        primary_agrees(t2),
{
    match t.pk {
        None => {},
        Some(c) => {
            assert forall|k2: i64| #[trigger] t2.primary.contains_key(k2) implies live(t2, t2.primary[k2] as int)
                && row_at(t2, t2.primary[k2] as int)[c as int] == ValueM::Int(k2) by {
                assert(t.primary.contains_key(k2));
            }
            assert forall|p: int| #[trigger] live(t2, p) implies (row_at(t2, p)[c as int] matches ValueM::Int(k2)
                && t2.primary.contains_key(k2) && t2.primary[k2] == p) by {
                assert(live(t, p));
            }
        },
    }
}

proof fn lemma_update_agrees(t: TableM, p0: int, vs: Seq<ValueM>, es: Seq<EntryM>)
    requires
        primary_agrees(t),
        update_row_spec(t, p0, vs, es) is Some,
    ensures
        primary_agrees(update_row_spec(t, p0, vs, es)->Some_0),
{
    let t2 = update_row_spec(t, p0, vs, es)->Some_0;
    assert(t2.rows == t.rows.update(p0, Some(vs)));
    assert(t2.primary == t.primary);
    assert(live(t, p0));
    match t.pk {
        None => {},
        Some(c) => {
            let old = row_at(t, p0);
            let k0 = old[c as int]->Int_0;
            assert(old[c as int] == ValueM::Int(k0));
            assert(vs[c as int] == ValueM::Int(k0));
            assert forall|k2: i64| #[trigger] t2.primary.contains_key(k2) implies live(t2, t2.primary[k2] as int)
                && row_at(t2, t2.primary[k2] as int)[c as int] == ValueM::Int(k2) by {
                assert(t.primary.contains_key(k2));
                let q = t.primary[k2] as int;
                assert(live(t, q));
                if q != p0 {
                    assert(t2.rows[q] == t.rows[q]);
                }
            }
            assert forall|p: int| #[trigger] live(t2, p) implies (row_at(t2, p)[c as int] matches ValueM::Int(k2)
                && t2.primary.contains_key(k2) && t2.primary[k2] == p) by {
                if p != p0 {
                    assert(t2.rows[p] == t.rows[p]);
                    assert(live(t, p));
                }
            }
        },
    }
}

proof fn lemma_delete_agrees(t: TableM, p0: int)
    requires
        primary_agrees(t),
        delete_row_spec(t, p0) is Some,
    ensures
        primary_agrees(delete_row_spec(t, p0)->Some_0),
{
    let t2 = delete_row_spec(t, p0)->Some_0;
    assert(t2.rows == t.rows.update(p0, None));
    assert(live(t, p0));
    match t.pk {
        None => {
            assert(t2.primary == t.primary);
        },
        Some(c) => {
            let old = row_at(t, p0);
            let k0 = old[c as int]->Int_0;
            assert(old[c as int] == ValueM::Int(k0));
            assert(t2.primary == t.primary.remove(k0));
            assert(t.primary[k0] == p0);
            assert forall|k2: i64| #[trigger] t2.primary.contains_key(k2) implies live(t2, t2.primary[k2] as int)
                && row_at(t2, t2.primary[k2] as int)[c as int] == ValueM::Int(k2) by {
                assert(t.primary.contains_key(k2));
                let q = t.primary[k2] as int;
                assert(live(t, q));
                if q == p0 {
                    assert(row_at(t, q)[c as int] == ValueM::Int(k2));
                }
                assert(t2.rows[q] == t.rows[q]);
            }
            assert forall|p: int| #[trigger] live(t2, p) implies (row_at(t2, p)[c as int] matches ValueM::Int(k2)
                && t2.primary.contains_key(k2) && t2.primary[k2] == p) by {
                assert(t2.rows[p] == t.rows[p]);
                assert(live(t, p));
            }
        },
    }
}

#[verifier::spinoff_prover]
#[verifier::rlimit(40)]
proof fn lemma_step_agrees(db: Seq<TableM>, pending: Seq<EntryM>, rec: RecordM, n: int)
    requires
        primaries_agree(db),
        crate::replay::rows_within(db, n),
        0 <= n < usize::MAX,
        replay_step(db, pending, rec) is Ok,
    ensures
        primaries_agree(replay_step(db, pending, rec)->Ok_0.0),
{
    let d2 = replay_step(db, pending, rec)->Ok_0.0;
    match rec {
        RecordM::Catalog { table, columns } => {
            assert forall|a: int| 0 <= a < d2.len() implies primary_agrees(#[trigger] d2[a]) by {
                if a < db.len() {
                    assert(d2[a] == db[a]);
                }
            }
        },
        RecordM::Entry { .. } => {},
        _ => {
            let i = match rec {
                RecordM::Row { table, .. } => find_table(db, table)->Some_0,
                RecordM::IndexedRow { table, .. } => find_table(db, table)->Some_0,
                RecordM::UpdateRow { table, .. } => find_table(db, table)->Some_0,
                RecordM::DeleteRow { table, .. } => find_table(db, table)->Some_0,
                RecordM::Metadata { table_name, .. } => find_table(db, table_name)->Some_0,
                _ => 0,
            };
            crate::schema::lemma_find_table(db, match rec {
                RecordM::Row { table, .. } => table,
                RecordM::IndexedRow { table, .. } => table,
                RecordM::UpdateRow { table, .. } => table,
                RecordM::DeleteRow { table, .. } => table,
                RecordM::Metadata { table_name, .. } => table_name,
                _ => Seq::empty(),
            });
            let t = db[i];
            assert(primary_agrees(t));
            assert(t.rows.len() <= n);
            match rec {
                RecordM::Row { table, values } => {
                    let t2 = append_row_spec(t, values)->Some_0;
                    lemma_append_agrees(t, t2, values);
                    assert(d2 == db.update(i, t2));
                },
                RecordM::IndexedRow { table, values, entries } => {
                    let es = crate::rows::expected_entries(t, values, t.rows.len() as int)->Some_0;
                    let xs = crate::rows::add_entries(t.indexes, es, t.rows.len() as usize)->Some_0;
                    let t1 = TableM { indexes: xs, ..t };
                    lemma_slot_agrees(t, t1);
                    let t2 = append_row_spec(t1, values)->Some_0;
                    lemma_append_agrees(t1, t2, values);
                    assert(d2 == db.update(i, t2));
                },
                RecordM::UpdateRow { table, row_position, values, entries } => {
                    let es = crate::rows::expected_entries(t, values, row_position as int)->Some_0;
                    lemma_update_agrees(t, row_position as int, values, es);
                    assert(d2 == db.update(i, update_row_spec(t, row_position as int, values, es)->Some_0));
                },
                RecordM::DeleteRow { table, row_position } => {
                    lemma_delete_agrees(t, row_position as int);
                    assert(d2 == db.update(i, delete_row_spec(t, row_position as int)->Some_0));
                },
                RecordM::Metadata { build_id, index_name, table_name, indexed_column, tie_break_mode } => {
                    let group = crate::replay::group_of(pending, index_name, build_id);
                    let m = crate::statements::fill_entries(Map::empty(), group)->Some_0;
                    let t2 = crate::statements::with_new_index(t, build_id, index_name, indexed_column as int, tie_break_mode, m);
                    lemma_slot_agrees(t, t2);
                    assert(d2 == db.update(i, t2));
                },
                _ => {},
            }
            assert forall|a: int| 0 <= a < d2.len() implies primary_agrees(#[trigger] d2[a]) by {
                if a != i {
                    assert(d2[a] == db[a]);
                }
            }
        },
    }
}

proof fn lemma_prefix_agrees(s: Seq<Seq<u8>>)
    requires
        replay_prefix(s) is Ok,
        s.len() < usize::MAX,
    ensures
        primaries_agree(replay_prefix(s)->Ok_0.0),
        crate::replay::rows_within(replay_prefix(s)->Ok_0.0, s.len() as int),
    decreases s.len(),
{
    if s.len() > 0 {
        lemma_prefix_agrees(s.drop_last());
        let (db, pending) = replay_prefix(s.drop_last())->Ok_0;
        let n = s.len() - 1;
        lemma_step_agrees(db, pending, decode_spec(s.last())->Some_0, n);
        crate::replay::lemma_step_rows(db, pending, decode_spec(s.last())->Some_0, n);
    }
}

/// A database rebuilt from records has tables with distinct names (ignoring
/// case), indexes with distinct names within each table, storable rows with
/// a value per column, a primary index holding exactly its live rows by
/// key, and every secondary index holding exactly what its table's rows
/// give. Stated for fewer than `usize::MAX` records, as a list in memory
/// holds.
pub proof fn law_replayed_database(s: Seq<Seq<u8>>)
    requires
        crate::replay::replay_spec(s) is Ok,
        s.len() < usize::MAX,
    ensures
        replayed_ok(crate::replay::replay_spec(s)->Ok_0),
        crate::replay::indexes_consistent(crate::replay::replay_spec(s)->Ok_0),
        primaries_agree(crate::replay::replay_spec(s)->Ok_0),
{
    lemma_prefix_replayed_ok(s);
    lemma_prefix_agrees(s);
}

/// Index names are distinct within each table, and every table has room
/// for one more row slot.
pub open spec fn tables_roomy(d: Seq<TableM>) -> bool {
    &&& forall|i: int| 0 <= i < d.len() ==> crate::consistency::table_names_distinct(#[trigger] d[i])
    &&& crate::replay::rows_room(d)
}

/// Replayed tables with room for `r` more indexes can be written back,
/// and their indexes have distinct names.
proof fn lemma_replayed_reopenable(d: Seq<TableM>, r: int)
    requires
        replayed_ok(d),
        index_room(d, r),
        crate::replay::rows_room(d),
    ensures
        reopenable(d),
        tables_roomy(d),
{
    assert forall|i: int| 0 <= i < d.len() implies table_storable(#[trigger] d[i]) by {
        assert(table_replayed_ok(d[i]));
        assert(d[i].indexes.len() + r < 65536);
    }
    assert forall|i: int| 0 <= i < d.len() implies crate::consistency::table_names_distinct(#[trigger] d[i]) by {
        assert(table_replayed_ok(d[i]));
    }
}

/// A run that succeeds is what a reopen reads back: replaying the store's
/// records, those the database was opened from and then those the run
/// appended, opens to exactly the tables the run left. Stated for
/// statements as the parser gives them, from an opened database whose
/// tables have room for another row and for the indexes the run adds, and
/// whose waiting entries belong to builds started before the records it
/// was opened from ended; and for stores that stay below `u64::MAX`
/// records.
pub proof fn law_reopen_reads_back_run(s0: Seq<Seq<u8>>, sts: Seq<StatementM>)
    requires
        crate::replay::replay_spec(s0) is Ok,
        crate::replay::rows_room(replay_prefix(s0)->Ok_0.0),
        index_room(replay_prefix(s0)->Ok_0.0, index_builds(sts)),
        pending_below(replay_prefix(s0)->Ok_0.1, s0.len() as int),
        statements_ok(sts),
    ensures
        ({
            let d0 = crate::replay::replay_spec(s0)->Ok_0;
            let (result, ps) = run_spec(d0, sts, s0.len() as int);
            result matches Ok((d1, _)) ==> (s0.len() + ps.len() <= u64::MAX ==> crate::replay::replay_spec(s0 + ps) == Ok::<
                Seq<TableM>,
                CheckLabel,
            >(d1) && replay_prefix(s0 + ps) == Ok::<(Seq<TableM>, Seq<EntryM>), CheckLabel>(
                (d1, replay_prefix(s0)->Ok_0.1),
            ))
        }),
{
    let (d0, pending) = replay_prefix(s0)->Ok_0;
    lemma_prefix_replayed_ok(s0);
    lemma_replayed_reopenable(d0, index_builds(sts));
    assert(crate::consistency::reopen_consistent(d0, pending));
    lemma_run_replays(d0, pending, sts, s0.len() as int, 0);
    let ps = run_spec(d0, sts, s0.len() as int).1;
    lemma_replay_concat(s0, ps);
}

/// `execute` then reopen: when running SQL text succeeds, the files it
/// leaves behind hold the records the store was opened from followed by
/// those the statements appended, and they open to the tables the run
/// left. Stated under the conditions of `law_reopen_reads_back_run`.
pub proof fn law_execute_then_reopen(
    out: Vec<u8>,
    data0: Option<Seq<u8>>,
    wal0: Option<Seq<u8>>,
    data1: Option<Seq<u8>>,
    wal1: Option<Seq<u8>>,
    sql: Seq<u8>,
)
    requires
        crate::sql::execute_post(Ok(out), data0, wal0, data1, wal1, sql),
        crate::sql::opened_records(data0, wal0) is Ok,
        crate::parser::statements_spec(sql) is Ok,
        ({
            let s0 = crate::sql::opened_records(data0, wal0)->Ok_0;
            let sts = crate::parser::statements_spec(sql)->Ok_0;
            &&& crate::replay::replay_spec(s0) is Ok
            &&& crate::replay::rows_room(replay_prefix(s0)->Ok_0.0)
            &&& index_room(replay_prefix(s0)->Ok_0.0, index_builds(sts))
            &&& pending_below(replay_prefix(s0)->Ok_0.1, s0.len() as int)
            &&& statements_ok(sts)
        }),
    ensures
        ({
            let s0 = crate::sql::opened_records(data0, wal0)->Ok_0;
            let sts = crate::parser::statements_spec(sql)->Ok_0;
            let d0 = crate::replay::replay_spec(s0)->Ok_0;
            let (result, ps) = run_spec(d0, sts, s0.len() as int);
            &&& crate::sql::store_files(data1, wal1, s0 + ps)
            &&& result matches Ok((d1, _)) ==> (s0.len() + ps.len() <= u64::MAX ==> crate::replay::replay_spec(s0 + ps)
                == Ok::<Seq<TableM>, CheckLabel>(d1))
        }),
{
    let s0 = crate::sql::opened_records(data0, wal0)->Ok_0;
    let sts = crate::parser::statements_spec(sql)->Ok_0;
    law_reopen_reads_back_run(s0, sts);
    let s1 = choose|s1: Seq<Seq<u8>>| {
        &&& crate::sql::store_files(data1, wal1, s1)
        &&& match crate::replay::replay_spec(s0) {
            Err(_) => Ok::<Vec<u8>, crate::sql::SqlError>(out) matches Err(x) && x@ == SqlErrorM::InvalidStorageRecord && s1
                == s0,
            Ok(d0) => match crate::parser::statements_spec(sql) {
                Err(e) => Ok::<Vec<u8>, crate::sql::SqlError>(out) matches Err(x) && x@ == e && s1 == s0,
                Ok(sts) => crate::sql::run_answer(
                    Ok(out),
                    s0,
                    s1,
                    d0,
                    crate::storage::room_for_record(data1->Some_0, wal1, s1.len() as int),
                    sts,
                ),
            },
        }
    };
    lemma_replay_spec_prefix(s0);
}

proof fn lemma_replay_spec_prefix(s0: Seq<Seq<u8>>)
    ensures
        crate::replay::replay_spec(s0) matches Ok(d) ==> replay_prefix(s0) matches Ok((d1, _)) && d1 == d,
{
}

} // verus!
