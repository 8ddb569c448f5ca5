//! Row-level changes to a table and its indexes: the secondary index
//! entries a row gives, adding a row, and replacing or deleting the row in
//! a slot.
use crate::record::{ColumnType, EmbeddedIndexEntry, EntryM, TieBreakMode, Value, ValueM, entries_keyed, entries_view, values_view};
use crate::schema::{
    IndexM, IndexState, Table, TableM, index_ok, indexes_view, live, row_at, row_view, rows_view, same_name, table_ok,
};
use crate::sql::{SqlError, SqlErrorM};
use crate::text::{eq_ignore_ascii_case, lower, to_ascii_lowercase};
use vstd::prelude::*;

verus! {

/// The entry that index `x` holds for `row` in slot `p`: its key is the
/// row's value in the indexed column, its tie break the primary key or the
/// slot; `None` when those are not integers or there is no primary key.
pub open spec fn expected_entry(x: IndexM, t: TableM, row: Seq<ValueM>, p: int) -> Option<EntryM> {
    match row[x.column as int] {
        ValueM::Int(k) => {
            let tie = match x.mode {
                TieBreakMode::PrimaryKey => match t.pk {
                    None => None,
                    Some(c) => match row[c as int] {
                        ValueM::Int(v) => Some(v),
                        ValueM::Text(_) => None,
                    },
                },
                TieBreakMode::RowPosition => Some(p as i64),
            };
            match tie {
                Some(tb) => Some(
                    EntryM { build_id: x.build_id, index_name: x.name, indexed_key: k, tie_break: tb, row_position: p as u64 },
                ),
                None => None,
            }
        },
        ValueM::Text(_) => None,
    }
}

/// The entries of all indexes `xs` for `row` in slot `p`, in index order.
pub open spec fn expected_entries_of(xs: Seq<IndexM>, t: TableM, row: Seq<ValueM>, p: int) -> Option<Seq<EntryM>>
    decreases xs.len(),
{
    if xs.len() == 0 {
        Some(Seq::empty())
    } else {
        match expected_entries_of(xs.drop_last(), t, row, p) {
            None => None,
            Some(es) => match expected_entry(xs.last(), t, row, p) {
                None => None,
                Some(e) => Some(es.push(e)),
            },
        }
    }
}

/// The entries of all indexes of `t` for `row` in slot `p`.
pub open spec fn expected_entries(t: TableM, row: Seq<ValueM>, p: int) -> Option<Seq<EntryM>> {
    expected_entries_of(t.indexes, t, row, p)
}

/// Index `j` of `t` can read `row`.
pub open spec fn row_fits(t: TableM, row: Seq<ValueM>) -> bool {
    &&& row.len() == t.columns.len()
    &&& (t.pk matches Some(c) ==> c < t.columns.len())
    &&& forall|j: int| 0 <= j < t.indexes.len() ==> (#[trigger] t.indexes[j]).column < t.columns.len()
}

/// The entry a row gives one index.
pub fn expected_entry_for_index(x: &IndexState, t: &Table, row: &Vec<Value>, p: usize) -> (r: Option<EmbeddedIndexEntry>)
    requires
        x.indexed_column < row@.len(),
        (t.primary_key_column matches Some(c) ==> c < row@.len()),
    ensures
        match expected_entry(x@, t@, values_view(row@), p as int) {
            Some(m) => r matches Some(e) && e@ == m && crate::record::entry_keyed(e),
            None => r is None,
        },
{
    assert(values_view(row@)[x.indexed_column as int] == row@[x.indexed_column as int]@);
    let k = match &row[x.indexed_column] {
        Value::Int(k) => *k,
        Value::Text(_) => {
            return None;
        },
    };
    let tie = match x.tie_break_mode {
        TieBreakMode::PrimaryKey => match t.primary_key_column {
            None => {
                return None;
            },
            Some(c) => {
                assert(values_view(row@)[c as int] == row@[c as int]@);
                match &row[c] {
                    Value::Int(v) => *v,
                    Value::Text(_) => {
                        return None;
                    },
                }
            },
        },
        TieBreakMode::RowPosition => p as i64,
    };
    Some(
        EmbeddedIndexEntry {
            build_id: x.build_id,
            index_name_key: to_ascii_lowercase(x.name.as_slice()),
            index_name: copy_name(&x.name),
            indexed_key: k,
            tie_break: tie,
            row_position: p as u64,
        },
    )
}

fn copy_name(v: &Vec<u8>) -> (r: Vec<u8>)
    ensures
        r@ == v@,
{
    let r = crate::bytes::copy_range(v.as_slice(), 0, v.len());
    assert(v@.subrange(0, v@.len() as int) =~= v@);
    r
}

proof fn lemma_entries_none_after(xs: Seq<IndexM>, t: TableM, row: Seq<ValueM>, p: int, k: int)
    requires
        0 <= k <= xs.len(),
        expected_entries_of(xs.subrange(0, k), t, row, p) is None,
    ensures
        expected_entries_of(xs, t, row, p) is None,
    decreases xs.len() - k,
{
    if k < xs.len() {
        assert(xs.subrange(0, k + 1).drop_last() =~= xs.subrange(0, k));
        lemma_entries_none_after(xs, t, row, p, k + 1);
    } else {
        assert(xs.subrange(0, k) =~= xs);
    }
}

/// The entries of every index for a row.
pub fn expected_entries_for_row(t: &Table, row: &Vec<Value>, p: usize) -> (r: Option<Vec<EmbeddedIndexEntry>>)
    requires
        row_fits(t@, values_view(row@)),
    ensures
        match expected_entries(t@, values_view(row@), p as int) {
            Some(m) => r matches Some(v) && entries_view(v@) == m && entries_keyed(v@),
            None => r is None,
        },
{
    let ghost xs = t@.indexes;
    let ghost rv = values_view(row@);
    let mut out: Vec<EmbeddedIndexEntry> = Vec::new();
    let n = t.secondary_indexes.len();
    let mut j: usize = 0;
    assert(entries_view(out@) =~= Seq::<EntryM>::empty());
    while j < n
        invariant
            n == t.secondary_indexes@.len(),
            xs == t@.indexes,
            rv == values_view(row@),
            row_fits(t@, rv),
            j <= n,
            expected_entries_of(xs.subrange(0, j as int), t@, rv, p as int) == Some(entries_view(out@)),
            entries_keyed(out@),
        decreases n - j,
    {
        assert(xs.subrange(0, j + 1).drop_last() =~= xs.subrange(0, j as int));
        assert(xs.subrange(0, j + 1).last() == t.secondary_indexes@[j as int]@);
        assert(xs[j as int].column < t@.columns.len());
        let e = match expected_entry_for_index(&t.secondary_indexes[j], t, row, p) {
            Some(e) => e,
            None => {
                proof {
                    lemma_entries_none_after(xs, t@, rv, p as int, j + 1);
                }
                return None;
            },
        };
        let ghost before = out@;
        out.push(e);
        assert(entries_view(out@) =~= entries_view(before).push(e@));
        j = j + 1;
    }
    assert(xs.subrange(0, n as int) =~= xs);
    Some(out)
}

/// The first index of `xs` that an entry belongs to: same build, same name.
pub open spec fn index_of_entry(xs: Seq<IndexM>, e: EntryM, j: int) -> Option<int>
    decreases xs.len() - j,
{
    if j < 0 || j >= xs.len() {
        None
    } else if xs[j].build_id == e.build_id && same_name(xs[j].name, e.index_name) {
        Some(j)
    } else {
        index_of_entry(xs, e, j + 1)
    }
}

/// Adds one entry, for slot `p`, to the index it belongs to; `None` when no
/// index matches or its pair is already taken.
pub open spec fn add_entry(xs: Seq<IndexM>, e: EntryM, p: usize) -> Option<Seq<IndexM>> {
    match index_of_entry(xs, e, 0) {
        None => None,
        Some(j) => if xs[j].entries.contains_key((e.indexed_key, e.tie_break)) {
            None
        } else {
            Some(xs.update(j, IndexM { entries: xs[j].entries.insert((e.indexed_key, e.tie_break), p), ..xs[j] }))
        },
    }
}

/// Adds entries in order.
pub open spec fn add_entries(xs: Seq<IndexM>, es: Seq<EntryM>, p: usize) -> Option<Seq<IndexM>>
    decreases es.len(),
{
    if es.len() == 0 {
        Some(xs)
    } else {
        match add_entries(xs, es.drop_last(), p) {
            None => None,
            Some(cur) => add_entry(cur, es.last(), p),
        }
    }
}

/// Removes one entry that must map to slot `p`; `None` when no index
/// matches or the index does not map the pair to `p`.
pub open spec fn drop_entry(xs: Seq<IndexM>, e: EntryM, p: usize) -> Option<Seq<IndexM>> {
    match index_of_entry(xs, e, 0) {
        None => None,
        Some(j) => {
            let key = (e.indexed_key, e.tie_break);
            if xs[j].entries.contains_key(key) && xs[j].entries[key] == p {
                Some(xs.update(j, IndexM { entries: xs[j].entries.remove(key), ..xs[j] }))
            } else {
                None
            }
        },
    }
}

/// Removes entries in order.
pub open spec fn drop_entries(xs: Seq<IndexM>, es: Seq<EntryM>, p: usize) -> Option<Seq<IndexM>>
    decreases es.len(),
{
    if es.len() == 0 {
        Some(xs)
    } else {
        match drop_entries(xs, es.drop_last(), p) {
            None => None,
            Some(cur) => drop_entry(cur, es.last(), p),
        }
    }
}

proof fn lemma_index_of_entry(xs: Seq<IndexM>, e: EntryM, j: int)
    requires
        0 <= j <= xs.len(),
    ensures
        index_of_entry(xs, e, j) matches Some(k) ==> j <= k < xs.len(),
    decreases xs.len() - j,
{
    if j < xs.len() && !(xs[j].build_id == e.build_id && same_name(xs[j].name, e.index_name)) {
        lemma_index_of_entry(xs, e, j + 1);
    }
}

/// The position of the index an entry belongs to.
fn find_index_of_entry(xs: &Vec<IndexState>, e: &EmbeddedIndexEntry) -> (r: Option<usize>)
    ensures
        r == match index_of_entry(indexes_view(xs@), e@, 0) {
            Some(j) => Some(j as usize),
            None => None::<usize>,
        },
        r matches Some(j) ==> j < xs@.len(),
        index_of_entry(indexes_view(xs@), e@, 0) matches Some(k) ==> 0 <= k < xs.len(),
{
    let n = xs.len();
    let mut j: usize = 0;
    proof {
        lemma_index_of_entry(indexes_view(xs@), e@, 0);
    }
    while j < n
        invariant
            n == xs@.len(),
            j <= n,
            index_of_entry(indexes_view(xs@), e@, j as int) == index_of_entry(indexes_view(xs@), e@, 0),
        decreases n - j,
    {
        assert(indexes_view(xs@)[j as int] == xs@[j as int]@);
        if xs[j].build_id == e.build_id && eq_ignore_ascii_case(xs[j].name.as_slice(), e.index_name.as_slice()) {
            return Some(j);
        }
        j = j + 1;
    }
    None
}

/// Indexes whose entries all point below `bound`.
pub open spec fn entries_below(xs: Seq<IndexM>, bound: int) -> bool {
    forall|i: int, e: (i64, i64)| 0 <= i < xs.len() && #[trigger] xs[i].entries.contains_key(e) ==> xs[i].entries[e]
        < bound
}

/// Adds the entries to the indexes they belong to, for slot `p`.
pub fn insert_entries(xs: &mut Vec<IndexState>, es: &Vec<EmbeddedIndexEntry>, p: usize) -> (r: Result<(), SqlError>)
    ensures
        match add_entries(indexes_view(old(xs)@), entries_view(es@), p) {
            Some(m) => r is Ok && indexes_view(final(xs)@) == m,
            None => r matches Err(e) && e@ == SqlErrorM::InvalidStorageRecord,
        },
{
    let ghost start = indexes_view(xs@);
    let ghost ev = entries_view(es@);
    let n = es.len();
    let mut k: usize = 0;
    assert(ev.subrange(0, 0) =~= Seq::<EntryM>::empty());
    while k < n
        invariant
            n == es@.len(),
            ev == entries_view(es@),
            k <= n,
            start == indexes_view(old(xs)@),
            add_entries(start, ev.subrange(0, k as int), p) == Some(indexes_view(xs@)),
        decreases n - k,
    {
        assert(ev.subrange(0, k + 1).drop_last() =~= ev.subrange(0, k as int));
        assert(ev.subrange(0, k + 1).last() == es@[k as int]@);
        let e = &es[k];
        let ghost cur = indexes_view(xs@);
        let j = match find_index_of_entry(xs, e) {
            Some(j) => j,
            None => {
                proof {
                    assert(add_entry(cur, e@, p) is None);
                    assert(add_entries(start, ev.subrange(0, k + 1), p) is None);
                    lemma_add_none_after(start, ev, p, k as int + 1);
                }
                return Err(SqlError::InvalidStorageRecord);
            },
        };
        let mut state = xs.remove(j);
        let res = state.index.insert(e.indexed_key, e.tie_break, p);
        xs.insert(j, state);
        assert(indexes_view(xs@) =~= cur.update(j as int, state@));
        match res {
            Ok(()) => {},
            Err(_) => {
                proof {
                    assert(cur[j as int].entries.contains_key((e.indexed_key, e.tie_break)));
                    assert(add_entry(cur, e@, p) is None);
                    assert(add_entries(start, ev.subrange(0, k + 1), p) is None);
                    lemma_add_none_after(start, ev, p, k as int + 1);
                }
                return Err(SqlError::InvalidStorageRecord);
            },
        }
        k = k + 1;
    }
    assert(ev.subrange(0, n as int) =~= ev);
    Ok(())
}

proof fn lemma_add_none_after(xs: Seq<IndexM>, es: Seq<EntryM>, p: usize, k: int)
    requires
        0 <= k <= es.len(),
        add_entries(xs, es.subrange(0, k), p) is None,
    ensures
        add_entries(xs, es, p) is None,
    decreases es.len() - k,
{
    if k < es.len() {
        assert(es.subrange(0, k + 1).drop_last() =~= es.subrange(0, k));
        lemma_add_none_after(xs, es, p, k + 1);
    } else {
        assert(es.subrange(0, k) =~= es);
    }
}

proof fn lemma_drop_none_after(xs: Seq<IndexM>, es: Seq<EntryM>, p: usize, k: int)
    requires
        0 <= k <= es.len(),
        drop_entries(xs, es.subrange(0, k), p) is None,
    ensures
        drop_entries(xs, es, p) is None,
    decreases es.len() - k,
{
    if k < es.len() {
        assert(es.subrange(0, k + 1).drop_last() =~= es.subrange(0, k));
        lemma_drop_none_after(xs, es, p, k + 1);
    } else {
        assert(es.subrange(0, k) =~= es);
    }
}

/// Removes the entries, each of which must map to slot `p`.
pub fn remove_entries(xs: &mut Vec<IndexState>, es: &Vec<EmbeddedIndexEntry>, p: usize) -> (r: Result<(), SqlError>)
    ensures
        match drop_entries(indexes_view(old(xs)@), entries_view(es@), p) {
            Some(m) => r is Ok && indexes_view(final(xs)@) == m,
            None => r matches Err(e) && e@ == SqlErrorM::InvalidStorageRecord,
        },
{
    let ghost start = indexes_view(xs@);
    let ghost ev = entries_view(es@);
    let n = es.len();
    let mut k: usize = 0;
    assert(ev.subrange(0, 0) =~= Seq::<EntryM>::empty());
    while k < n
        invariant
            n == es@.len(),
            ev == entries_view(es@),
            k <= n,
            start == indexes_view(old(xs)@),
            drop_entries(start, ev.subrange(0, k as int), p) == Some(indexes_view(xs@)),
        decreases n - k,
    {
        assert(ev.subrange(0, k + 1).drop_last() =~= ev.subrange(0, k as int));
        assert(ev.subrange(0, k + 1).last() == es@[k as int]@);
        let e = &es[k];
        let ghost cur = indexes_view(xs@);
        let j = match find_index_of_entry(xs, e) {
            Some(j) => j,
            None => {
                proof {
                    assert(drop_entry(cur, e@, p) is None);
                    assert(drop_entries(start, ev.subrange(0, k + 1), p) is None);
                    lemma_drop_none_after(start, ev, p, k as int + 1);
                }
                return Err(SqlError::InvalidStorageRecord);
            },
        };
        let mut state = xs.remove(j);
        let removed = state.index.remove(e.indexed_key, e.tie_break);
        xs.insert(j, state);
        assert(indexes_view(xs@) =~= cur.update(j as int, state@));
        match removed {
            Some(q) => {
                if q != p {
                    proof {
                        assert(drop_entry(cur, e@, p) is None);
                        assert(drop_entries(start, ev.subrange(0, k + 1), p) is None);
                        lemma_drop_none_after(start, ev, p, k as int + 1);
                    }
                    return Err(SqlError::InvalidStorageRecord);
                }
            },
            None => {
                proof {
                    assert(drop_entry(cur, e@, p) is None);
                    assert(drop_entries(start, ev.subrange(0, k + 1), p) is None);
                    lemma_drop_none_after(start, ev, p, k as int + 1);
                }
                return Err(SqlError::InvalidStorageRecord);
            },
        }
        k = k + 1;
    }
    assert(ev.subrange(0, n as int) =~= ev);
    Ok(())
}

/// Adding or removing entries keeps each index's identity and column, and
/// keeps entries pointing below `bound` when the slot is below it.
pub proof fn lemma_entries_keep(xs: Seq<IndexM>, es: Seq<EntryM>, p: usize, bound: int)
    ensures
        add_entries(xs, es, p) matches Some(ys) ==> ys.len() == xs.len() && (forall|i: int|
            0 <= i < xs.len() ==> (#[trigger] ys[i]).column == xs[i].column && ys[i].build_id == xs[i].build_id
                && ys[i].name == xs[i].name && ys[i].mode == xs[i].mode) && (entries_below(xs, bound) && p < bound
            ==> entries_below(ys, bound)),
        drop_entries(xs, es, p) matches Some(ys) ==> ys.len() == xs.len() && (forall|i: int|
            0 <= i < xs.len() ==> (#[trigger] ys[i]).column == xs[i].column && ys[i].build_id == xs[i].build_id
                && ys[i].name == xs[i].name && ys[i].mode == xs[i].mode) && (entries_below(xs, bound)
            ==> entries_below(ys, bound)),
    decreases es.len(),
{
    if es.len() > 0 {
        lemma_entries_keep(xs, es.drop_last(), p, bound);
        if let Some(cur) = add_entries(xs, es.drop_last(), p) {
            lemma_index_of_entry(cur, es.last(), 0);
            if let Some(ys) = add_entry(cur, es.last(), p) {
                let j = index_of_entry(cur, es.last(), 0)->Some_0;
                assert forall|i: int, e: (i64, i64)| 0 <= i < ys.len() && #[trigger] ys[i].entries.contains_key(e) && entries_below(xs, bound) && p < bound implies ys[i].entries[e] < bound by {
                    if i != j {
                        assert(ys[i] == cur[i]);
                    }
                }
            }
        }
        if let Some(cur) = drop_entries(xs, es.drop_last(), p) {
            lemma_index_of_entry(cur, es.last(), 0);
            if let Some(ys) = drop_entry(cur, es.last(), p) {
                let j = index_of_entry(cur, es.last(), 0)->Some_0;
                assert forall|i: int, e: (i64, i64)| 0 <= i < ys.len() && #[trigger] ys[i].entries.contains_key(e) && entries_below(xs, bound) implies ys[i].entries[e] < bound by {
                    if i != j {
                        assert(ys[i] == cur[i]);
                    }
                }
            }
        }
    }
}

/// The table's invariant, with the index part stated over a list of indexes.
pub proof fn lemma_table_ok_parts(t: TableM)
    ensures
        table_ok(t) <==> {
            &&& (t.pk matches Some(c) ==> c < t.columns.len())
            &&& (forall|p: int| #[trigger] live(t, p) ==> row_at(t, p).len() == t.columns.len())
            &&& (forall|k: i64| #[trigger] t.primary.contains_key(k) ==> t.primary[k] < t.rows.len())
            &&& (forall|j: int| 0 <= j < t.indexes.len() ==> (#[trigger] t.indexes[j]).column < t.columns.len())
            &&& entries_below(t.indexes, t.rows.len() as int)
        },
{
    if table_ok(t) {
        assert forall|i: int, e: (i64, i64)| 0 <= i < t.indexes.len() && #[trigger] t.indexes[i].entries.contains_key(e) implies t.indexes[i].entries[e] < t.rows.len() by {
            assert(index_ok(t.indexes[i], t));
        }
    }
}

/// A copy of a value.
pub fn clone_value(v: &Value) -> (r: Value)
    ensures
        r@ == v@,
{
    match v {
        Value::Int(i) => Value::Int(*i),
        Value::Text(t) => Value::Text(copy_name(t)),
    }
}

/// A copy of a row.
pub fn clone_values(v: &Vec<Value>) -> (r: Vec<Value>)
    ensures
        values_view(r@) == values_view(v@),
{
    let mut out: Vec<Value> = Vec::new();
    let n = v.len();
    let mut i: usize = 0;
    while i < n
        invariant
            n == v@.len(),
            i <= n,
            values_view(out@) == values_view(v@).subrange(0, i as int),
        decreases n - i,
    {
        let ghost before = out@;
        let x = clone_value(&v[i]);
        out.push(x);
        assert(values_view(out@) =~= values_view(before).push(x@));
        assert(values_view(v@).subrange(0, i + 1) =~= values_view(v@).subrange(0, i as int).push(v@[i as int]@));
        i = i + 1;
    }
    assert(values_view(v@).subrange(0, n as int) =~= values_view(v@));
    out
}

/// Appending a row: it goes into a new slot at the end, and its primary key (if the table has one) into the primary
/// index; `None` when the key is taken or not an integer.
pub open spec fn append_row_spec(t: TableM, vs: Seq<ValueM>) -> Option<TableM> {
    let primary = match t.pk {
        None => Some(t.primary),
        Some(c) => match vs[c as int] {
            ValueM::Int(k) => if t.primary.contains_key(k) {
                None
            } else {
                Some(t.primary.insert(k, t.rows.len() as usize))
            },
            ValueM::Text(_) => None,
        },
    };
    match primary {
        None => None,
        Some(m) => Some(TableM { rows: t.rows.push(Some(vs)), primary: m, ..t }),
    }
}

pub fn append_loaded_row(t: &mut Table, values: Vec<Value>) -> (r: Result<(), SqlError>)
    requires
        values@.len() == old(t).columns@.len(),
        old(t)@.pk matches Some(c) ==> c < old(t)@.columns.len(),
        old(t).rows@.len() < usize::MAX,
    ensures
        match append_row_spec(old(t)@, values_view(values@)) {
            Some(m) => r is Ok && final(t)@ == m,
            None => r matches Err(e) && e@ == SqlErrorM::InvalidStorageRecord && final(t)@ == old(t)@,
        },
        r is Ok && table_ok(old(t)@) ==> table_ok(final(t)@),
{
    let ghost t0 = t@;
    match t.primary_key_column {
        None => {},
        Some(c) => {
            assert(values_view(values@)[c as int] == values@[c as int]@);
            let key = match &values[c] {
                Value::Int(k) => *k,
                Value::Text(_) => {
                    return Err(SqlError::InvalidStorageRecord);
                },
            };
            let n = t.rows.len();
            match t.primary_index.insert(key, n) {
                Ok(()) => {},
                Err(_) => {
                    return Err(SqlError::InvalidStorageRecord);
                },
            }
        },
    }
    let ghost vv = values_view(values@);
    t.rows.push(Some(values));
    assert(rows_view(t.rows@) =~= t0.rows.push(Some(vv)));
    proof {
        if table_ok(t0) {
            lemma_table_ok_parts(t0);
            let t1 = t@;
            assert forall|p: int| #[trigger] live(t1, p) implies row_at(t1, p).len() == t1.columns.len() by {
                if p < t0.rows.len() {
                    assert(t1.rows[p] == t0.rows[p]);
                    assert(live(t0, p));
                }
            }
            assert(entries_below(t1.indexes, t1.rows.len() as int));
            lemma_table_ok_parts(t1);
        }
    }
    Ok(())
}

/// The row's primary key, if the table has one.
pub open spec fn pk_value(t: TableM, vs: Seq<ValueM>) -> Result<Option<i64>, SqlErrorM> {
    match t.pk {
        None => Ok(None),
        Some(c) => match vs[c as int] {
            ValueM::Int(k) => Ok(Some(k)),
            ValueM::Text(_) => Err(SqlErrorM::InvalidStorageRecord),
        },
    }
}

pub fn primary_key_value(t: &Table, values: &Vec<Value>) -> (r: Result<Option<i64>, SqlError>)
    requires
        t.primary_key_column matches Some(c) ==> c < values@.len(),
    ensures
        match pk_value(t@, values_view(values@)) {
            Ok(k) => r == Ok::<Option<i64>, SqlError>(k),
            Err(e) => r matches Err(x) && x@ == e,
        },
{
    match t.primary_key_column {
        None => Ok(None),
        Some(c) => {
            assert(values_view(values@)[c as int] == values@[c as int]@);
            match &values[c] {
                Value::Int(k) => Ok(Some(*k)),
                Value::Text(_) => Err(SqlError::InvalidStorageRecord),
            }
        },
    }
}

/// The row in slot `p` becomes `vs`, keeping its
/// primary key; its old entries leave the indexes and `new_entries` come
/// in. `None` when the slot is empty, the key changes, or an index refuses.
pub open spec fn update_row_spec(t: TableM, p: int, vs: Seq<ValueM>, new_entries: Seq<EntryM>) -> Option<TableM> {
    if !live(t, p) {
        None
    } else {
        let old = row_at(t, p);
        match expected_entries(t, old, p) {
            None => None,
            Some(old_es) => match (pk_value(t, old), pk_value(t, vs)) {
                (Ok(a), Ok(b)) => if a != b {
                    None
                } else {
                    match drop_entries(t.indexes, old_es, p as usize) {
                        None => None,
                        Some(x1) => match add_entries(x1, new_entries, p as usize) {
                            None => None,
                            Some(x2) => Some(TableM { rows: t.rows.update(p, Some(vs)), indexes: x2, ..t }),
                        },
                    }
                },
                _ => None,
            },
        }
    }
}

pub fn apply_update_to_table(t: &mut Table, p: usize, values: Vec<Value>, new_entries: &Vec<EmbeddedIndexEntry>) -> (r: Result<(), SqlError>)
    requires
        table_ok(old(t)@),
        values@.len() == old(t).columns@.len(),
    ensures
        match update_row_spec(old(t)@, p as int, values_view(values@), entries_view(new_entries@)) {
            Some(m) => r is Ok && final(t)@ == m && table_ok(final(t)@),
            None => r matches Err(e) && e@ == SqlErrorM::InvalidStorageRecord,
        },
{
    let ghost t0 = t@;
    if p >= t.rows.len() || t.rows[p].is_none() {
        assert(!live(t0, p as int)) by {
            if p < t.rows@.len() {
                assert(t0.rows[p as int] == row_view(t.rows@[p as int]));
            }
        }
        return Err(SqlError::InvalidStorageRecord);
    }
    let old_values = match &t.rows[p] {
        Some(v) => clone_values(v),
        None => {
            return Err(SqlError::InvalidStorageRecord);
        },
    };
    assert(t0.rows[p as int] == row_view(t.rows@[p as int]));
    assert(live(t0, p as int));
    let ghost old_row = row_at(t0, p as int);
    assert(values_view(old_values@) == old_row);
    proof {
        lemma_table_ok_parts(t0);
    }
    let old_entries = match expected_entries_for_row(t, &old_values, p) {
        Some(es) => es,
        None => {
            return Err(SqlError::InvalidStorageRecord);
        },
    };
    let a = primary_key_value(t, &old_values)?;
    let b = primary_key_value(t, &values)?;
    if a != b {
        return Err(SqlError::InvalidStorageRecord);
    }
    remove_entries(&mut t.secondary_indexes, &old_entries, p)?;
    let ghost x1 = indexes_view(t.secondary_indexes@);
    insert_entries(&mut t.secondary_indexes, new_entries, p)?;
    let ghost x2 = indexes_view(t.secondary_indexes@);
    proof {
        lemma_entries_keep(t0.indexes, entries_view(old_entries@), p, t0.rows.len() as int);
        lemma_entries_keep(x1, entries_view(new_entries@), p, t0.rows.len() as int);
    }
    let ghost vv = values_view(values@);
    t.rows.set(p, Some(values));
    proof {
        assert(rows_view(t.rows@) =~= t0.rows.update(p as int, Some(vv)));
        let t1 = t@;
        assert(t1 == TableM { rows: t0.rows.update(p as int, Some(vv)), indexes: x2, ..t0 });
        assert forall|q: int| #[trigger] live(t1, q) implies row_at(t1, q).len() == t1.columns.len() by {
            if q != p {
                assert(t1.rows[q] == t0.rows[q]);
                assert(live(t0, q));
            }
        }
        assert forall|j: int| 0 <= j < t1.indexes.len() implies (#[trigger] t1.indexes[j]).column < t1.columns.len() by {
            assert(t1.indexes[j].column == x1[j].column);
            assert(x1[j].column == t0.indexes[j].column);
        }
        lemma_table_ok_parts(t1);
    }
    Ok(())
}

/// Slot `p` is emptied, its key leaves the primary
/// index and its entries leave the secondary indexes; `None` when the slot
/// is empty or an index does not map the row's key to the slot.
pub open spec fn delete_row_spec(t: TableM, p: int) -> Option<TableM> {
    if !live(t, p) {
        None
    } else {
        let old = row_at(t, p);
        let primary = match t.pk {
            None => Some(t.primary),
            Some(c) => match old[c as int] {
                ValueM::Int(k) => if t.primary.contains_key(k) && t.primary[k] == p {
                    Some(t.primary.remove(k))
                } else {
                    None
                },
                ValueM::Text(_) => None,
            },
        };
        match primary {
            None => None,
            Some(pm) => match expected_entries(t, old, p) {
                None => None,
                Some(old_es) => match drop_entries(t.indexes, old_es, p as usize) {
                    None => None,
                    Some(x) => Some(TableM { rows: t.rows.update(p, None), primary: pm, indexes: x, ..t }),
                },
            },
        }
    }
}

pub fn apply_delete_to_table(t: &mut Table, p: usize) -> (r: Result<(), SqlError>)
    requires
        table_ok(old(t)@),
    ensures
        match delete_row_spec(old(t)@, p as int) {
            Some(m) => r is Ok && final(t)@ == m && table_ok(final(t)@),
            None => r matches Err(e) && e@ == SqlErrorM::InvalidStorageRecord,
        },
{
    let ghost t0 = t@;
    if p >= t.rows.len() || t.rows[p].is_none() {
        assert(!live(t0, p as int)) by {
            if p < t.rows@.len() {
                assert(t0.rows[p as int] == row_view(t.rows@[p as int]));
            }
        }
        return Err(SqlError::InvalidStorageRecord);
    }
    let old_values = match &t.rows[p] {
        Some(v) => clone_values(v),
        None => {
            return Err(SqlError::InvalidStorageRecord);
        },
    };
    assert(t0.rows[p as int] == row_view(t.rows@[p as int]));
    assert(live(t0, p as int));
    proof {
        lemma_table_ok_parts(t0);
    }
    match t.primary_key_column {
        None => {},
        Some(c) => {
            assert(values_view(old_values@)[c as int] == old_values@[c as int]@);
            let key = match &old_values[c] {
                Value::Int(k) => *k,
                Value::Text(_) => {
                    return Err(SqlError::InvalidStorageRecord);
                },
            };
            match t.primary_index.remove(key) {
                Some(q) => {
                    if q != p {
                        return Err(SqlError::InvalidStorageRecord);
                    }
                },
                None => {
                    return Err(SqlError::InvalidStorageRecord);
                },
            }
        },
    }
    proof {
        lemma_expected_entries_same(t0.indexes, t0, t@, values_view(old_values@), p as int);
    }
    let old_entries = match expected_entries_for_row(t, &old_values, p) {
        Some(es) => es,
        None => {
            return Err(SqlError::InvalidStorageRecord);
        },
    };
    remove_entries(&mut t.secondary_indexes, &old_entries, p)?;
    proof {
        lemma_entries_keep(t0.indexes, entries_view(old_entries@), p, t0.rows.len() as int);
    }
    t.rows.set(p, None);
    proof {
        assert(rows_view(t.rows@) =~= t0.rows.update(p as int, None));
        let t1 = t@;
        assert forall|q: int| #[trigger] live(t1, q) implies row_at(t1, q).len() == t1.columns.len() by {
            assert(q != p);
            assert(t1.rows[q] == t0.rows[q]);
            assert(live(t0, q));
        }
        assert forall|k: i64| #[trigger] t1.primary.contains_key(k) implies t1.primary[k] < t1.rows.len() by {
            assert(t0.primary.contains_key(k));
        }
        assert forall|j: int| 0 <= j < t1.indexes.len() implies (#[trigger] t1.indexes[j]).column < t1.columns.len() by {
            assert(t1.indexes[j].column == t0.indexes[j].column);
        }
        lemma_table_ok_parts(t1);
    }
    Ok(())
}

/// The entries a row gives depend on the table only through its primary
/// key column.
proof fn lemma_expected_entries_same(xs: Seq<IndexM>, t1: TableM, t2: TableM, row: Seq<ValueM>, p: int)
    requires
        t1.pk == t2.pk,
    ensures
        expected_entries_of(xs, t1, row, p) == expected_entries_of(xs, t2, row, p),
    decreases xs.len(),
{
    if xs.len() > 0 {
        lemma_expected_entries_same(xs.drop_last(), t1, t2, row, p);
    }
}

} // verus!
