//! Tables, their indexes and the database, with their models; lookups by
//! name, row validation, and the secondary index entries a row gives.
use crate::bytes::push_all;
use crate::index::{PrimaryIndex, SecondaryIndex};
use crate::record::{
    Column, ColumnM, ColumnType, EmbeddedIndexEntry, EntryM, TieBreakMode, Value, ValueM, columns_view,
    value_type, values_view,
};
use crate::sql::{Hint, SqlError, SqlErrorM};
use crate::text::{decimal, eq_ignore_ascii_case, i64_to_decimal, is_output_safe_text, lower, output_safe, to_ascii_lowercase};
use vstd::prelude::*;
use vstd::string::*;

verus! {

/// A secondary index of a table.
pub struct IndexState {
    pub build_id: u64,
    pub name: Vec<u8>,
    pub indexed_column: usize,
    pub tie_break_mode: TieBreakMode,
    pub index: SecondaryIndex,
}

/// A table: its catalog, its rows (`None` once deleted) and its indexes.
pub struct Table {
    pub name: Vec<u8>,
    pub columns: Vec<Column>,
    pub rows: Vec<Option<Vec<Value>>>,
    pub primary_key_column: Option<usize>,
    pub primary_index: PrimaryIndex,
    pub secondary_indexes: Vec<IndexState>,
}

/// The tables of a database, in the order they were created.
pub struct Database {
    pub tables: Vec<Table>,
}

/// The model of a secondary index.
pub struct IndexM {
    pub build_id: u64,
    pub name: Seq<u8>,
    pub column: usize,
    pub mode: TieBreakMode,
    pub entries: Map<(i64, i64), usize>,
}

/// The model of a table.
pub struct TableM {
    pub name: Seq<u8>,
    pub columns: Seq<ColumnM>,
    pub rows: Seq<Option<Seq<ValueM>>>,
    pub pk: Option<usize>,
    pub primary: Map<i64, usize>,
    pub indexes: Seq<IndexM>,
}

impl View for IndexState {
    type V = IndexM;

    open spec fn view(&self) -> IndexM {
        IndexM {
            build_id: self.build_id,
            name: self.name@,
            column: self.indexed_column,
            mode: self.tie_break_mode,
            entries: self.index@,
        }
    }
}

/// The model of a row slot.
pub open spec fn row_view(r: Option<Vec<Value>>) -> Option<Seq<ValueM>> {
    match r {
        Some(v) => Some(values_view(v@)),
        None => None,
    }
}

pub open spec fn rows_view(rows: Seq<Option<Vec<Value>>>) -> Seq<Option<Seq<ValueM>>> {
    rows.map_values(|r: Option<Vec<Value>>| row_view(r))
}

pub open spec fn indexes_view(v: Seq<IndexState>) -> Seq<IndexM> {
    v.map_values(|x: IndexState| x@)
}

impl View for Table {
    type V = TableM;

    open spec fn view(&self) -> TableM {
        TableM {
            name: self.name@,
            columns: columns_view(self.columns@),
            rows: rows_view(self.rows@),
            pk: self.primary_key_column,
            primary: self.primary_index@,
            indexes: indexes_view(self.secondary_indexes@),
        }
    }
}

pub open spec fn tables_view(v: Seq<Table>) -> Seq<TableM> {
    v.map_values(|t: Table| t@)
}

impl View for Database {
    type V = Seq<TableM>;

    open spec fn view(&self) -> Seq<TableM> {
        tables_view(self.tables@)
    }
}

/// Whether two names are the same, ignoring ASCII letter case.
pub open spec fn same_name(a: Seq<u8>, b: Seq<u8>) -> bool {
    lower(a) == lower(b)
}

/// Whether row slot `p` holds a row.
pub open spec fn live(t: TableM, p: int) -> bool {
    0 <= p < t.rows.len() && t.rows[p] is Some
}

/// The row in slot `p`.
pub open spec fn row_at(t: TableM, p: int) -> Seq<ValueM> {
    t.rows[p]->Some_0
}

/// An index refers to a column of its table and to row slots of it.
pub open spec fn index_ok(x: IndexM, t: TableM) -> bool {
    &&& x.column < t.columns.len()
    &&& forall|e: (i64, i64)| #[trigger] x.entries.contains_key(e) ==> x.entries[e] < t.rows.len()
}

/// What every table keeps, so that no lookup goes out of bounds: the
/// primary key column exists, every row has a value per column, and every
/// index refers to an existing column and to existing row slots.
pub open spec fn table_ok(t: TableM) -> bool {
    &&& (t.pk matches Some(c) ==> c < t.columns.len())
    &&& forall|p: int| #[trigger] live(t, p) ==> row_at(t, p).len() == t.columns.len()
    &&& forall|k: i64| #[trigger] t.primary.contains_key(k) ==> t.primary[k] < t.rows.len()
    &&& forall|i: int| 0 <= i < t.indexes.len() ==> index_ok(#[trigger] t.indexes[i], t)
}

/// Every table of the database keeps its invariant.
pub open spec fn db_ok(db: Seq<TableM>) -> bool {
    forall|i: int| 0 <= i < db.len() ==> table_ok(#[trigger] db[i])
}

/// The first table from `i` on whose name is `name`, ignoring case.
pub open spec fn find_from(db: Seq<TableM>, name: Seq<u8>, i: int) -> Option<int>
    decreases db.len() - i,
{
    if i < 0 || i >= db.len() {
        None
    } else if same_name(db[i].name, name) {
        Some(i)
    } else {
        find_from(db, name, i + 1)
    }
}

/// The table named `name`, ignoring case.
pub open spec fn find_table(db: Seq<TableM>, name: Seq<u8>) -> Option<int> {
    find_from(db, name, 0)
}

proof fn lemma_find_from(db: Seq<TableM>, name: Seq<u8>, i: int)
    requires
        0 <= i <= db.len(),
    ensures
        find_from(db, name, i) matches Some(k) ==> i <= k < db.len() && same_name(db[k].name, name),
        find_from(db, name, i) is None ==> forall|k: int| i <= k < db.len() ==> !same_name(#[trigger] db[k].name, name),
    decreases db.len() - i,
{
    if i < db.len() && !same_name(db[i].name, name) {
        lemma_find_from(db, name, i + 1);
    }
}

/// The table `find_table` gives is one of the database's, with that name.
pub proof fn lemma_find_table(db: Seq<TableM>, name: Seq<u8>)
    ensures
        find_table(db, name) matches Some(k) ==> 0 <= k < db.len() && same_name(db[k].name, name),
        find_table(db, name) is None ==> forall|k: int| 0 <= k < db.len() ==> !same_name(#[trigger] db[k].name, name),
{
    lemma_find_from(db, name, 0);
}

/// The position of the table named `name`.
pub fn find_table_index(db: &Database, name: &[u8]) -> (r: Option<usize>)
    ensures
        r == match find_table(db@, name@) {
            Some(k) => Some(k as usize),
            None => None::<usize>,
        },
        r matches Some(k) ==> k < db@.len(),
        find_table(db@, name@) matches Some(k) ==> 0 <= k < db.tables.len() && same_name(db@[k].name, name@),
{
    proof {
        lemma_find_from(db@, name@, 0);
    }
    let n = db.tables.len();
    let mut i: usize = 0;
    while i < n
        invariant
            n == db.tables@.len(),
            i <= n,
            find_from(db@, name@, i as int) == find_table(db@, name@),
        decreases n - i,
    {
        assert(db@[i as int] == db.tables@[i as int]@);
        if eq_ignore_ascii_case(db.tables[i].name.as_slice(), name) {
            return Some(i);
        }
        i = i + 1;
    }
    None
}

/// Whether some table has an index named `name`, ignoring case.
pub open spec fn has_index_named(db: Seq<TableM>, name: Seq<u8>) -> bool {
    exists|i: int, j: int| 0 <= i < db.len() && 0 <= j < db[i].indexes.len() && same_name(db[i].indexes[j].name, name)
}

pub fn contains_index_name(db: &Database, name: &[u8]) -> (r: bool)
    ensures
        r == has_index_named(db@, name@),
{
    let n = db.tables.len();
    let mut i: usize = 0;
    while i < n
        invariant
            n == db.tables@.len(),
            i <= n,
            forall|a: int, j: int| 0 <= a < i && 0 <= j < db@[a].indexes.len() ==> !same_name(#[trigger] db@[a].indexes[j].name, name@),
        decreases n - i,
    {
        let t = &db.tables[i];
        let m = t.secondary_indexes.len();
        let mut j: usize = 0;
        while j < m
            invariant
                n == db.tables@.len(),
                i < n,
                t == db.tables@[i as int],
                m == t.secondary_indexes@.len(),
                j <= m,
                forall|b: int| 0 <= b < j ==> !same_name(#[trigger] db@[i as int].indexes[b].name, name@),
            decreases m - j,
        {
            assert(db@[i as int].indexes[j as int] == t.secondary_indexes@[j as int]@);
            if eq_ignore_ascii_case(t.secondary_indexes[j].name.as_slice(), name) {
                return true;
            }
            j = j + 1;
        }
        i = i + 1;
    }
    false
}

/// The first index of `t` whose column is named `column`, ignoring case.
pub open spec fn index_for_from(t: TableM, column: Seq<u8>, j: int) -> Option<int>
    decreases t.indexes.len() - j,
{
    if j < 0 || j >= t.indexes.len() {
        None
    } else if same_name(t.columns[t.indexes[j].column as int].name, column) {
        Some(j)
    } else {
        index_for_from(t, column, j + 1)
    }
}

pub open spec fn index_for_column(t: TableM, column: Seq<u8>) -> Option<int> {
    index_for_from(t, column, 0)
}

proof fn lemma_index_for_from(t: TableM, column: Seq<u8>, j: int)
    requires
        0 <= j <= t.indexes.len(),
    ensures
        index_for_from(t, column, j) matches Some(k) ==> j <= k < t.indexes.len(),
    decreases t.indexes.len() - j,
{
    if j < t.indexes.len() && !same_name(t.columns[t.indexes[j].column as int].name, column) {
        lemma_index_for_from(t, column, j + 1);
    }
}

/// The index used for a predicate on `column`.
pub fn secondary_index_for_column(t: &Table, column: &[u8]) -> (r: Option<usize>)
    requires
        table_ok(t@),
    ensures
        r == match index_for_column(t@, column@) {
            Some(j) => Some(j as usize),
            None => None::<usize>,
        },
        r matches Some(j) ==> j < t.secondary_indexes@.len(),
        index_for_column(t@, column@) matches Some(j) ==> 0 <= j < t.secondary_indexes.len(),
{
    proof {
        lemma_index_for_from(t@, column@, 0);
    }
    let m = t.secondary_indexes.len();
    let mut j: usize = 0;
    while j < m
        invariant
            table_ok(t@),
            m == t.secondary_indexes@.len(),
            j <= m,
            index_for_from(t@, column@, j as int) == index_for_column(t@, column@),
        decreases m - j,
    {
        let c = t.secondary_indexes[j].indexed_column;
        assert(t@.indexes[j as int] == t.secondary_indexes@[j as int]@);
        assert(index_ok(t@.indexes[j as int], t@));
        assert(t@.columns[c as int] == t.columns@[c as int]@);
        if eq_ignore_ascii_case(t.columns[c].name.as_slice(), column) {
            return Some(j);
        }
        j = j + 1;
    }
    None
}

/// A value that a stored row may hold: text must not break the output.
pub open spec fn loaded_value_ok(v: ValueM) -> bool {
    match v {
        ValueM::Int(_) => true,
        ValueM::Text(t) => output_safe(t),
    }
}

/// The name of a column type, as messages spell it.
pub open spec fn column_type_text(t: ColumnType) -> Seq<u8> {
    match t {
        ColumnType::Int => "INT".spec_bytes(),
        ColumnType::Text => "TEXT".spec_bytes(),
    }
}

/// `type mismatch for column NAME: expected T, got U`.
pub open spec fn type_mismatch_message(name: Seq<u8>, expected: ColumnType, got: ColumnType) -> Seq<u8> {
    "type mismatch for column ".spec_bytes() + name + ": expected ".spec_bytes() + column_type_text(expected)
        + ", got ".spec_bytes() + column_type_text(got)
}

/// The first problem among the values from `j` on: a type that is not the
/// column's, or text that cannot be stored.
pub open spec fn values_from(cs: Seq<ColumnM>, vs: Seq<ValueM>, j: int) -> Result<(), SqlErrorM>
    decreases vs.len() - j,
{
    if j < 0 || j >= vs.len() || j >= cs.len() {
        Ok(())
    } else if cs[j].column_type != value_type(vs[j]) {
        Err(
            SqlErrorM::Semantic(
                type_mismatch_message(cs[j].name, cs[j].column_type, value_type(vs[j])),
                Hint::InsertTypes,
            ),
        )
    } else if !loaded_value_ok(vs[j]) {
        Err(SqlErrorM::InvalidStorageRecord)
    } else {
        values_from(cs, vs, j + 1)
    }
}

/// `column count mismatch for table T: expected N values, got M`.
pub open spec fn count_mismatch_message(table: Seq<u8>, expected: int, got: int) -> Seq<u8> {
    "column count mismatch for table ".spec_bytes() + table + ": expected ".spec_bytes() + decimal(expected)
        + " values, got ".spec_bytes() + decimal(got)
}

/// What `validate_values_for_table` checks: one value per column, each of the column's
/// type and storable.
pub open spec fn values_check(t: TableM, vs: Seq<ValueM>) -> Result<(), SqlErrorM> {
    if t.columns.len() != vs.len() {
        Err(
            SqlErrorM::Semantic(
                count_mismatch_message(t.name, t.columns.len() as int, vs.len() as int),
                Hint::InsertSchema,
            ),
        )
    } else {
        values_from(t.columns, vs, 0)
    }
}

/// Appends the spelling of a column type.
fn push_type_name(out: &mut Vec<u8>, t: ColumnType)
    ensures
        final(out)@ == old(out)@ + column_type_text(t),
{
    match t {
        ColumnType::Int => push_all(out, "INT".as_bytes()),
        ColumnType::Text => push_all(out, "TEXT".as_bytes()),
    }
}

/// The decimal digits of a count.
fn push_count(out: &mut Vec<u8>, n: usize)
    ensures
        final(out)@ == old(out)@ + decimal(n as int),
{
    let d = crate::text::u64_digits(n as u64);
    push_all(out, d.as_slice());
}

pub fn validate_values_for_table(t: &Table, values: &Vec<Value>) -> (r: Result<(), SqlError>)
    ensures
        match values_check(t@, values_view(values@)) {
            Ok(()) => r is Ok,
            Err(e) => r matches Err(x) && x@ == e,
        },
{
    let ghost vs = values_view(values@);
    if t.columns.len() != values.len() {
        let mut message: Vec<u8> = Vec::new();
        push_all(&mut message, "column count mismatch for table ".as_bytes());
        push_all(&mut message, t.name.as_slice());
        push_all(&mut message, ": expected ".as_bytes());
        push_count(&mut message, t.columns.len());
        push_all(&mut message, " values, got ".as_bytes());
        push_count(&mut message, values.len());
        assert(message@ =~= count_mismatch_message(t@.name, t@.columns.len() as int, vs.len() as int));
        return Err(SqlError::Semantic { message, hint: Hint::InsertSchema });
    }
    let n = values.len();
    let mut j: usize = 0;
    while j < n
        invariant
            n == values@.len(),
            n == t.columns@.len(),
            vs == values_view(values@),
            j <= n,
            values_from(t@.columns, vs, j as int) == values_from(t@.columns, vs, 0),
        decreases n - j,
    {
        let column = &t.columns[j];
        assert(t@.columns[j as int] == column@);
        assert(vs[j as int] == values@[j as int]@);
        let vt = match &values[j] {
            Value::Int(_) => ColumnType::Int,
            Value::Text(_) => ColumnType::Text,
        };
        if column.column_type != vt {
            let mut message: Vec<u8> = Vec::new();
            push_all(&mut message, "type mismatch for column ".as_bytes());
            push_all(&mut message, column.name.as_slice());
            push_all(&mut message, ": expected ".as_bytes());
            push_type_name(&mut message, column.column_type);
            push_all(&mut message, ", got ".as_bytes());
            push_type_name(&mut message, vt);
            assert(message@ =~= type_mismatch_message(column@.name, column.column_type, vt));
            return Err(SqlError::Semantic { message, hint: Hint::InsertTypes });
        }
        match &values[j] {
            Value::Int(_) => {},
            Value::Text(text) => {
                if !is_output_safe_text(text.as_slice()) {
                    return Err(SqlError::InvalidStorageRecord);
                }
            },
        }
        j = j + 1;
    }
    Ok(())
}

/// What identifies an entry when lists of entries are compared: its build,
/// its index name in lower case, its key, tie break and row position.
pub open spec fn entry_key(e: EntryM) -> (u64, Seq<u8>, i64, i64, u64) {
    (e.build_id, lower(e.index_name), e.indexed_key, e.tie_break, e.row_position)
}

pub open spec fn entry_keys(es: Seq<EntryM>) -> Seq<(u64, Seq<u8>, i64, i64, u64)> {
    es.map_values(|e: EntryM| entry_key(e))
}

/// Two lists hold the same entries, in any order (`canonical_entries` of
/// both are equal).
pub open spec fn same_entry_lists(a: Seq<EntryM>, b: Seq<EntryM>) -> bool {
    entry_keys(a).to_multiset() == entry_keys(b).to_multiset()
}

fn same_entry(x: &EmbeddedIndexEntry, y: &EmbeddedIndexEntry) -> (r: bool)
    requires
        crate::record::entry_keyed(*x),
        crate::record::entry_keyed(*y),
    ensures
        r == (entry_key(x@) == entry_key(y@)),
{
    x.build_id == y.build_id && crate::text::bytes_eq(x.index_name_key.as_slice(), y.index_name_key.as_slice())
        && x.indexed_key == y.indexed_key && x.tie_break == y.tie_break && x.row_position == y.row_position
}

/// Whether two lists hold the same entries in any order.
pub fn same_entries_in_any_order(a: &Vec<EmbeddedIndexEntry>, b: &Vec<EmbeddedIndexEntry>) -> (r: bool)
    requires
        crate::record::entries_keyed(a@),
        crate::record::entries_keyed(b@),
    ensures
        r == same_entry_lists(crate::record::entries_view(a@), crate::record::entries_view(b@)),
{
    broadcast use vstd::seq_lib::group_to_multiset_ensures, vstd::seq_lib::lemma_multiset_commutative;

    let ghost ka = entry_keys(crate::record::entries_view(a@));
    let ghost kb = entry_keys(crate::record::entries_view(b@));
    let n = a.len();
    if n != b.len() {
        proof {
            assert(ka.to_multiset().len() != kb.to_multiset().len());
        }
        return false;
    }
    // The usual case: both lists in the same order.
    let mut i: usize = 0;
    let mut in_order = true;
    while i < n
        invariant
            n == a@.len(),
            n == b@.len(),
            i <= n,
            crate::record::entries_keyed(a@),
            crate::record::entries_keyed(b@),
            ka == entry_keys(crate::record::entries_view(a@)),
            kb == entry_keys(crate::record::entries_view(b@)),
            in_order ==> forall|k: int| 0 <= k < i ==> ka[k] == kb[k],
        decreases n - i,
    {
        if !same_entry(&a[i], &b[i]) {
            in_order = false;
        }
        i = i + 1;
    }
    if in_order {
        assert(ka =~= kb);
        return true;
    }
    let mut rest: Vec<usize> = Vec::new();
    let mut j: usize = 0;
    while j < n
        invariant
            n == b@.len(),
            j <= n,
            rest@.len() == j,
            forall|k: int| 0 <= k < j ==> rest@[k] == k,
        decreases n - j,
    {
        rest.push(j);
        j = j + 1;
    }
    let ghost rs = rest@.map_values(|k: usize| kb[k as int]);
    assert(rs =~= kb);
    assert(ka.subrange(0, 0).to_multiset() =~= vstd::multiset::Multiset::empty());
    let mut i: usize = 0;
    while i < n
        invariant
            n == a@.len(),
            n == b@.len(),
            i <= n,
            crate::record::entries_keyed(a@),
            crate::record::entries_keyed(b@),
            ka == entry_keys(crate::record::entries_view(a@)),
            kb == entry_keys(crate::record::entries_view(b@)),
            rest@.len() == n - i,
            forall|k: int| 0 <= k < rest@.len() ==> rest@[k] < n,
            ka.subrange(0, i as int).to_multiset().add(rest@.map_values(|k: usize| kb[k as int]).to_multiset())
                == kb.to_multiset(),
        decreases n - i,
    {
        let ghost rs = rest@.map_values(|k: usize| kb[k as int]);
        let m = rest.len();
        let mut k: usize = 0;
        let mut found = false;
        while k < m && !found
            invariant
                m == rest@.len(),
                k <= m,
                i < n,
                n == a@.len(),
                n == b@.len(),
                crate::record::entries_keyed(a@),
                crate::record::entries_keyed(b@),
                ka == entry_keys(crate::record::entries_view(a@)),
                kb == entry_keys(crate::record::entries_view(b@)),
                forall|q: int| 0 <= q < rest@.len() ==> rest@[q] < n,
                rs == rest@.map_values(|q: usize| kb[q as int]),
                found ==> k > 0 && rs[k - 1] == ka[i as int],
                !found ==> forall|q: int| 0 <= q < k ==> rs[q] != ka[i as int],
            decreases m - k + (if found { 0int } else { 1int }),
        {
            if same_entry(&a[i], &b[rest[k]]) {
                found = true;
            }
            k = k + 1;
        }
        if !found {
            proof {
                let x = ka[i as int];
                assert(!rs.contains(x));
                vstd::seq_lib::to_multiset_contains(rs, x);
                assert(rs.to_multiset().count(x) == 0);
                let pre = ka.subrange(0, i as int);
                let post = ka.subrange(i as int, n as int);
                assert(ka =~= pre + post);
                assert(post.contains(x)) by {
                    assert(post[0] == x);
                }
                vstd::seq_lib::to_multiset_contains(post, x);
                vstd::seq_lib::lemma_multiset_commutative(pre, post);
                assert(ka.to_multiset() == pre.to_multiset().add(post.to_multiset()));
                assert(ka.to_multiset().count(x) > kb.to_multiset().count(x));
            }
            return false;
        }
        let ghost before = rs;
        let ghost x = ka[i as int];
        rest.remove(k - 1);
        proof {
            assert(rest@.map_values(|q: usize| kb[q as int]) =~= before.remove(k - 1));
            assert(ka.subrange(0, i + 1) =~= ka.subrange(0, i as int).push(x));
            vstd::seq_lib::to_multiset_remove(before, k - 1);
            assert(before.remove(k - 1).to_multiset() == before.to_multiset().remove(x));
            vstd::seq_lib::to_multiset_build(ka.subrange(0, i as int), x);
            assert(ka.subrange(0, i + 1).to_multiset() == ka.subrange(0, i as int).to_multiset().insert(x));
            assert(before.contains(x)) by {
                assert(before[k - 1] == x);
            }
            vstd::seq_lib::to_multiset_contains(before, x);
            assert(before.to_multiset().count(x) > 0);
            assert(ka.subrange(0, i + 1).to_multiset().add(before.remove(k - 1).to_multiset())
                =~= ka.subrange(0, i as int).to_multiset().add(before.to_multiset()));
        }
        i = i + 1;
    }
    proof {
        assert(ka.subrange(0, n as int) =~= ka);
        assert(rest@.map_values(|q: usize| kb[q as int]) =~= Seq::<(u64, Seq<u8>, i64, i64, u64)>::empty());
        assert(ka.to_multiset().add(Seq::<(u64, Seq<u8>, i64, i64, u64)>::empty().to_multiset()) =~= ka.to_multiset());
    }
    true
}

/// Appends `type mismatch for column NAME: expected T, got U`.
pub fn push_type_mismatch(out: &mut Vec<u8>, name: &[u8], expected: ColumnType, got: ColumnType)
    ensures
        final(out)@ == old(out)@ + type_mismatch_message(name@, expected, got),
{
    let ghost start = out@;
    push_all(out, "type mismatch for column ".as_bytes());
    push_all(out, name);
    push_all(out, ": expected ".as_bytes());
    push_type_name(out, expected);
    push_all(out, ", got ".as_bytes());
    push_type_name(out, got);
    assert(out@ =~= start + type_mismatch_message(name@, expected, got));
}

} // verus!
