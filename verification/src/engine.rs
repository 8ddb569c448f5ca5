//! Running statements against the database in memory and the record
//! store: what each statement checks, the record it appends, the change it
//! makes, and the text a query prints.
use crate::bytes::push_all;
use crate::index::{key_order, lemma_key_order_unique, lemma_window_order_unique, window_order};
use crate::page::{StorageError, MAX_RECORD_PAYLOAD_LEN};
use crate::parser::Predicate;
use crate::record::{ValueM, Value, value_text, values_view};
use crate::schema::{
    Database, Table, TableM, db_ok, find_table, find_table_index, index_for_column, live, row_at, same_name,
    secondary_index_for_column, table_ok,
};
use crate::sql::{Hint, SqlError, SqlErrorM};
use crate::storage::PageStore;
use crate::text::{eq_ignore_ascii_case, i64_to_decimal};
use vstd::prelude::*;
use vstd::string::*;

verus! {

/// Parts joined by `|`.
pub open spec fn joined(parts: Seq<Seq<u8>>) -> Seq<u8>
    decreases parts.len(),
{
    if parts.len() == 0 {
        Seq::empty()
    } else if parts.len() == 1 {
        parts[0]
    } else {
        joined(parts.drop_last()) + seq![124u8] + parts.last()
    }
}

/// The header line of a table: its column names joined by `|`.
pub open spec fn header_text(t: TableM) -> Seq<u8> {
    joined(t.columns.map_values(|c: crate::record::ColumnM| c.name)) + seq![10u8]
}

/// The line of a row: its values joined by `|`.
pub open spec fn row_text(row: Seq<ValueM>) -> Seq<u8> {
    joined(row.map_values(|v: ValueM| value_text(v))) + seq![10u8]
}

/// The lines of the rows in slots `ps`, in that order; `None` if a slot is
/// empty or out of range.
pub open spec fn rows_text(t: TableM, ps: Seq<usize>) -> Option<Seq<u8>>
    decreases ps.len(),
{
    if ps.len() == 0 {
        Some(Seq::empty())
    } else {
        match rows_text(t, ps.drop_last()) {
            None => None,
            Some(done) => if live(t, ps.last() as int) {
                Some(done + row_text(row_at(t, ps.last() as int)))
            } else {
                None
            },
        }
    }
}

/// The lines of the rows in slots `0..n` that hold a row, in slot order.
pub open spec fn live_rows_text(t: TableM, n: int) -> Seq<u8>
    decreases n,
{
    if n <= 0 {
        Seq::empty()
    } else if live(t, n - 1) {
        live_rows_text(t, n - 1) + row_text(row_at(t, n - 1))
    } else {
        live_rows_text(t, n - 1)
    }
}

/// Appends `parts` joined by `|` and a line feed.
fn push_joined_line(out: &mut Vec<u8>, parts: &Vec<Vec<u8>>)
    ensures
        final(out)@ == old(out)@ + joined(parts@.map_values(|p: Vec<u8>| p@)) + seq![10u8],
{
    let ghost pv = parts@.map_values(|p: Vec<u8>| p@);
    let ghost start = out@;
    let n = parts.len();
    let mut i: usize = 0;
    assert(pv.subrange(0, 0) =~= Seq::<Seq<u8>>::empty());
    while i < n
        invariant
            n == parts@.len(),
            pv == parts@.map_values(|p: Vec<u8>| p@),
            start == old(out)@,
            i <= n,
            out@ == start + joined(pv.subrange(0, i as int)),
        decreases n - i,
    {
        if i > 0 {
            out.push(124u8);
        }
        push_all(out, parts[i].as_slice());
        proof {
            let s = pv.subrange(0, i + 1);
            assert(s.drop_last() =~= pv.subrange(0, i as int));
            assert(s.last() == parts@[i as int]@);
            if i == 0 {
                assert(joined(s) == s[0]);
                assert(out@ =~= start + joined(s));
            } else {
                assert(out@ =~= start + joined(s));
            }
        }
        i = i + 1;
    }
    out.push(10u8);
    assert(pv.subrange(0, n as int) =~= pv);
}

/// The text a value prints as.
fn value_output(v: &Value) -> (r: Vec<u8>)
    ensures
        r@ == value_text(v@),
{
    match v {
        Value::Int(i) => i64_to_decimal(*i),
        Value::Text(t) => crate::bytes::copy_range(t.as_slice(), 0, t.len()),
    }
}

/// Appends the header line of a table: its column names.
pub fn write_header(t: &Table, out: &mut Vec<u8>)
    ensures
        final(out)@ == old(out)@ + header_text(t@),
{
    let mut names: Vec<Vec<u8>> = Vec::new();
    let n = t.columns.len();
    let mut i: usize = 0;
    while i < n
        invariant
            n == t.columns@.len(),
            i <= n,
            names@.map_values(|p: Vec<u8>| p@) == t@.columns.map_values(|c: crate::record::ColumnM| c.name).subrange(0, i as int),
        decreases n - i,
    {
        let ghost before = names@;
        let nm = crate::bytes::copy_range(t.columns[i].name.as_slice(), 0, t.columns[i].name.len());
        assert(t.columns@[i as int].name@.subrange(0, t.columns@[i as int].name@.len() as int) =~= t.columns@[i as int].name@);
        assert(t@.columns[i as int] == t.columns@[i as int]@);
        names.push(nm);
        assert(names@.map_values(|p: Vec<u8>| p@) =~= before.map_values(|p: Vec<u8>| p@).push(nm@));
        assert(names@.map_values(|p: Vec<u8>| p@) =~= t@.columns.map_values(|c: crate::record::ColumnM| c.name).subrange(0, i + 1));
        i = i + 1;
    }
    assert(t@.columns.map_values(|c: crate::record::ColumnM| c.name).subrange(0, n as int) =~= t@.columns.map_values(|c: crate::record::ColumnM| c.name));
    push_joined_line(out, &names);
}

/// Appends the line of a row: its values.
pub fn write_row(row: &Vec<Value>, out: &mut Vec<u8>)
    ensures
        final(out)@ == old(out)@ + row_text(values_view(row@)),
{
    let mut texts: Vec<Vec<u8>> = Vec::new();
    let n = row.len();
    let mut i: usize = 0;
    while i < n
        invariant
            n == row@.len(),
            i <= n,
            texts@.map_values(|p: Vec<u8>| p@) == values_view(row@).map_values(|v: ValueM| value_text(v)).subrange(0, i as int),
        decreases n - i,
    {
        let x = value_output(&row[i]);
        let ghost before = texts@;
        assert(values_view(row@)[i as int] == row@[i as int]@);
        texts.push(x);
        assert(texts@.map_values(|p: Vec<u8>| p@) =~= before.map_values(|p: Vec<u8>| p@).push(x@));
        assert(texts@.map_values(|p: Vec<u8>| p@) =~= values_view(row@).map_values(|v: ValueM| value_text(v)).subrange(0, i + 1));
        i = i + 1;
    }
    assert(values_view(row@).map_values(|v: ValueM| value_text(v)).subrange(0, n as int) =~= values_view(row@).map_values(|v: ValueM| value_text(v)));
    push_joined_line(out, &texts);
}

proof fn lemma_rows_text_none_after(t: TableM, ps: Seq<usize>, k: int)
    requires
        0 <= k <= ps.len(),
        rows_text(t, ps.subrange(0, k)) is None,
    ensures
        rows_text(t, ps) is None,
    decreases ps.len() - k,
{
    if k < ps.len() {
        assert(ps.subrange(0, k + 1).drop_last() =~= ps.subrange(0, k));
        lemma_rows_text_none_after(t, ps, k + 1);
    } else {
        assert(ps.subrange(0, k) =~= ps);
    }
}

/// Appends the lines of the rows in slots `ps`.
fn write_rows_at(t: &Table, ps: &Vec<usize>, out: &mut Vec<u8>) -> (r: Result<(), SqlError>)
    ensures
        match rows_text(t@, ps@) {
            Some(text) => r is Ok && final(out)@ == old(out)@ + text,
            None => r matches Err(e) && e@ == SqlErrorM::InvalidStorageRecord,
        },
{
    let ghost start = out@;
    let n = ps.len();
    let mut i: usize = 0;
    assert(ps@.subrange(0, 0) =~= Seq::<usize>::empty());
    while i < n
        invariant
            n == ps@.len(),
            i <= n,
            start == old(out)@,
            rows_text(t@, ps@.subrange(0, i as int)) matches Some(text) && out@ == start + text,
        decreases n - i,
    {
        let p = ps[i];
        let ghost s = ps@.subrange(0, i + 1);
        assert(s.drop_last() =~= ps@.subrange(0, i as int));
        assert(s.last() == p);
        if p >= t.rows.len() || t.rows[p].is_none() {
            proof {
                if p < t.rows@.len() {
                    assert(t@.rows[p as int] == crate::schema::row_view(t.rows@[p as int]));
                }
                assert(!live(t@, p as int));
                lemma_rows_text_none_after(t@, ps@, i + 1);
            }
            return Err(SqlError::InvalidStorageRecord);
        }
        match &t.rows[p] {
            Some(row) => {
                assert(t@.rows[p as int] == crate::schema::row_view(t.rows@[p as int]));
                write_row(row, out);
            },
            None => {
                return Err(SqlError::InvalidStorageRecord);
            },
        }
        i = i + 1;
    }
    assert(ps@.subrange(0, n as int) =~= ps@);
    Ok(())
}

/// Appends the lines of every row that is held, in slot order.
fn write_live_rows(t: &Table, out: &mut Vec<u8>)
    ensures
        final(out)@ == old(out)@ + live_rows_text(t@, t@.rows.len() as int),
{
    let ghost start = out@;
    let n = t.rows.len();
    let mut i: usize = 0;
    while i < n
        invariant
            n == t.rows@.len(),
            i <= n,
            start == old(out)@,
            out@ == start + live_rows_text(t@, i as int),
        decreases n - i,
    {
        assert(t@.rows[i as int] == crate::schema::row_view(t.rows@[i as int]));
        match &t.rows[i] {
            Some(row) => {
                write_row(row, out);
                assert(out@ =~= start + live_rows_text(t@, i + 1));
            },
            None => {},
        }
        i = i + 1;
    }
}

/// `table not found: NAME`, with the hint that fits the statement.
pub open spec fn table_not_found(name: Seq<u8>, hint: Hint) -> SqlErrorM {
    SqlErrorM::Semantic("table not found: ".spec_bytes() + name, hint)
}

pub fn table_not_found_error(name: &[u8], hint: Hint) -> (r: SqlError)
    ensures
        r@ == table_not_found(name@, hint),
{
    let mut message: Vec<u8> = Vec::new();
    push_all(&mut message, "table not found: ".as_bytes());
    push_all(&mut message, name);
    assert(message@ =~= "table not found: ".spec_bytes() + name@);
    SqlError::Semantic { message, hint }
}

/// `SELECT * FROM table`: the header, then the rows in primary key order if
/// the table has a primary key, else in slot order.
pub open spec fn select_all_spec(db: Seq<TableM>, table: Seq<u8>) -> Result<Seq<u8>, SqlErrorM> {
    match find_table(db, table) {
        None => Err(table_not_found(table, Hint::CreateTableFirst)),
        Some(i) => {
            let t = db[i];
            if t.pk is Some {
                match rows_text(t, key_order(t.primary)) {
                    Some(body) => Ok(header_text(t) + body),
                    None => Err(SqlErrorM::InvalidStorageRecord),
                }
            } else {
                Ok(header_text(t) + live_rows_text(t, t.rows.len() as int))
            }
        },
    }
}

/// Appends what `SELECT * FROM table` prints.
pub fn execute_select(db: &Database, table: &[u8], out: &mut Vec<u8>) -> (r: Result<(), SqlError>)
    ensures
        match select_all_spec(db@, table@) {
            Ok(text) => r is Ok && final(out)@ == old(out)@ + text,
            Err(e) => r matches Err(x) && x@ == e,
        },
{
    let i = match find_table_index(db, table) {
        Some(i) => i,
        None => {
            return Err(table_not_found_error(table, Hint::CreateTableFirst));
        },
    };
    let t = &db.tables[i];
    assert(db@[i as int] == t@);
    write_header(t, out);
    if t.primary_key_column.is_some() {
        let ps = t.primary_index.ordered_positions();
        proof {
            lemma_key_order_unique(t@.primary, ps@);
        }
        write_rows_at(t, &ps, out)?;
    } else {
        write_live_rows(t, out);
    }
    Ok(())
}

/// `SELECT * FROM table WHERE column ...`: through the first index on the
/// column, in (key, tie break) order; or through the primary key for an
/// equality on it; anything else is unsupported.
pub open spec fn select_where_spec(
    db: Seq<TableM>,
    table: Seq<u8>,
    column: Seq<u8>,
    predicate: Predicate,
    raw: Seq<u8>,
) -> Result<Seq<u8>, SqlErrorM> {
    match find_table(db, table) {
        None => Err(table_not_found(table, Hint::CreateTableFirst)),
        Some(i) => {
            let t = db[i];
            match index_for_column(t, column) {
                Some(j) => {
                    let ps = match predicate {
                        Predicate::Equality(k) => window_order(t.indexes[j].entries, k, k),
                        Predicate::Range { low, high } => window_order(t.indexes[j].entries, low, high),
                    };
                    match rows_text(t, ps) {
                        Some(body) => Ok(header_text(t) + body),
                        None => Err(SqlErrorM::InvalidStorageRecord),
                    }
                },
                None => match t.pk {
                    Some(c) => if same_name(t.columns[c as int].name, column) {
                        match predicate {
                            Predicate::Equality(k) => if t.primary.contains_key(k) {
                                match rows_text(t, seq![t.primary[k]]) {
                                    Some(body) => Ok(header_text(t) + body),
                                    None => Err(SqlErrorM::InvalidStorageRecord),
                                }
                            } else {
                                Ok(header_text(t))
                            },
                            Predicate::Range { .. } => Err(SqlErrorM::Unsupported(raw)),
                        }
                    } else {
                        Err(SqlErrorM::Unsupported(raw))
                    },
                    None => Err(SqlErrorM::Unsupported(raw)),
                },
            }
        },
    }
}

/// Appends what the query prints.
pub fn execute_select_where(
    db: &Database,
    table: &[u8],
    column: &[u8],
    predicate: Predicate,
    raw: &[u8],
    out: &mut Vec<u8>,
) -> (r: Result<(), SqlError>)
    requires
        db_ok(db@),
    ensures
        match select_where_spec(db@, table@, column@, predicate, raw@) {
            Ok(text) => r is Ok && final(out)@ == old(out)@ + text,
            Err(e) => r matches Err(x) && x@ == e,
        },
{
    let i = match find_table_index(db, table) {
        Some(i) => i,
        None => {
            return Err(table_not_found_error(table, Hint::CreateTableFirst));
        },
    };
    let t = &db.tables[i];
    assert(db@[i as int] == t@);
    assert(table_ok(t@));
    match secondary_index_for_column(t, column) {
        Some(j) => {
            write_header(t, out);
            let x = &t.secondary_indexes[j];
            assert(t@.indexes[j as int] == x@);
            let ps = match predicate {
                Predicate::Equality(k) => x.index.equality_positions(k),
                Predicate::Range { low, high } => x.index.range_positions(low, high),
            };
            proof {
                match predicate {
                    Predicate::Equality(k) => lemma_window_order_unique(x@.entries, k, k, ps@),
                    Predicate::Range { low, high } => lemma_window_order_unique(x@.entries, low, high, ps@),
                }
            }
            write_rows_at(t, &ps, out)
        },
        None => {
            match t.primary_key_column {
                Some(c) => {
                    assert(t@.columns[c as int] == t.columns@[c as int]@);
                    if eq_ignore_ascii_case(t.columns[c].name.as_slice(), column) {
                        match predicate {
                            Predicate::Equality(k) => {
                                write_header(t, out);
                                match t.primary_index.get(k) {
                                    Some(p) => {
                                        let ps = vec![p];
                                        assert(ps@ =~= seq![t@.primary[k]]);
                                        write_rows_at(t, &ps, out)
                                    },
                                    None => {
                                        assert(old(out)@ + header_text(t@) =~= out@);
                                        Ok(())
                                    },
                                }
                            },
                            Predicate::Range { .. } => Err(SqlError::Unsupported(copy_bytes(raw))),
                        }
                    } else {
                        Err(SqlError::Unsupported(copy_bytes(raw)))
                    }
                },
                None => Err(SqlError::Unsupported(copy_bytes(raw))),
            }
        },
    }
}

/// A copy of some bytes.
pub fn copy_bytes(b: &[u8]) -> (r: Vec<u8>)
    ensures
        r@ == b@,
{
    let r = crate::bytes::copy_range(b, 0, b.len());
    assert(b@.subrange(0, b@.len() as int) =~= b@);
    r
}

} // verus!
