//! The logical records that the SQL layer stores as payloads of the record
//! store, and their byte encoding.
//!
//! Every record starts with `PDBSQL1\0` and a kind byte: `C` catalog, `R`
//! row, `E` secondary index entry, `X` secondary index metadata, `I` row
//! with its index entries, `U` row update, `D` row delete. Strings are a
//! u16 (names) or u32 (values) length and UTF-8 bytes; integers in rows are
//! decimal text; other integers are little-endian.
use crate::bytes::{
    lemma_read_bytes, lemma_split, bytes16, bytes32, bytes64, le16, le32, le64, push_all, push_le16, push_le32, push_le64,
    read_le16, read_le32, read_le64,
};
use crate::text::{decimal, lemma_parse_decimal, i64_to_decimal, lower, parse_i64, parse_int, to_ascii_lowercase};
use vstd::prelude::*;
use vstd::string::StringSliceAdditionalSpecFns;
use vstd::utf8::valid_utf8;

verus! {

/// The declared type of a column.
#[derive(Debug, Clone, Copy, PartialEq, Eq, Structural)]
pub enum ColumnType {
    Int,
    Text,
}

/// How a secondary index orders entries that share an indexed key.
#[derive(Debug, Clone, Copy, PartialEq, Eq, Structural)]
pub enum TieBreakMode {
    PrimaryKey,
    RowPosition,
}

/// A column of a table.
#[derive(Debug)]
pub struct Column {
    pub name: Vec<u8>,
    pub column_type: ColumnType,
    pub is_primary_key: bool,
}

/// A stored value.
#[derive(Debug)]
pub enum Value {
    Int(i64),
    Text(Vec<u8>),
}

/// A secondary index entry as stored with a row.
#[derive(Debug)]
pub struct EmbeddedIndexEntry {
    pub build_id: u64,
    pub index_name_key: Vec<u8>,
    pub index_name: Vec<u8>,
    pub indexed_key: i64,
    pub tie_break: i64,
    pub row_position: u64,
}

/// A decoded record.
#[derive(Debug)]
pub enum LogicalRecord {
    Catalog { table: Vec<u8>, columns: Vec<Column> },
    Row { table: Vec<u8>, values: Vec<Value> },
    SecondaryIndexEntry { entry: EmbeddedIndexEntry },
    SecondaryIndexMetadata {
        build_id: u64,
        index_name: Vec<u8>,
        table_name: Vec<u8>,
        indexed_column: u16,
        tie_break_mode: TieBreakMode,
    },
    IndexedRow { table: Vec<u8>, values: Vec<Value>, entries: Vec<EmbeddedIndexEntry> },
    UpdateRow {
        table: Vec<u8>,
        row_position: u64,
        values: Vec<Value>,
        entries: Vec<EmbeddedIndexEntry>,
    },
    DeleteRow { table: Vec<u8>, row_position: u64 },
}

// ----- models -----
pub struct ColumnM {
    pub name: Seq<u8>,
    pub column_type: ColumnType,
    pub is_primary_key: bool,
}

pub enum ValueM {
    Int(i64),
    Text(Seq<u8>),
}

pub struct EntryM {
    pub build_id: u64,
    pub index_name: Seq<u8>,
    pub indexed_key: i64,
    pub tie_break: i64,
    pub row_position: u64,
}

pub enum RecordM {
    Catalog { table: Seq<u8>, columns: Seq<ColumnM> },
    Row { table: Seq<u8>, values: Seq<ValueM> },
    Entry { entry: EntryM },
    Metadata {
        build_id: u64,
        index_name: Seq<u8>,
        table_name: Seq<u8>,
        indexed_column: u16,
        tie_break_mode: TieBreakMode,
    },
    IndexedRow { table: Seq<u8>, values: Seq<ValueM>, entries: Seq<EntryM> },
    UpdateRow { table: Seq<u8>, row_position: u64, values: Seq<ValueM>, entries: Seq<EntryM> },
    DeleteRow { table: Seq<u8>, row_position: u64 },
}

impl View for Column {
    type V = ColumnM;

    open spec fn view(&self) -> ColumnM {
        ColumnM { name: self.name@, column_type: self.column_type, is_primary_key: self.is_primary_key }
    }
}

impl View for Value {
    type V = ValueM;

    open spec fn view(&self) -> ValueM {
        match self {
            Value::Int(i) => ValueM::Int(*i),
            Value::Text(t) => ValueM::Text(t@),
        }
    }
}

impl View for EmbeddedIndexEntry {
    type V = EntryM;

    open spec fn view(&self) -> EntryM {
        EntryM {
            build_id: self.build_id,
            index_name: self.index_name@,
            indexed_key: self.indexed_key,
            tie_break: self.tie_break,
            row_position: self.row_position,
        }
    }
}

pub open spec fn columns_view(c: Seq<Column>) -> Seq<ColumnM> {
    c.map_values(|x: Column| x@)
}

pub open spec fn values_view(v: Seq<Value>) -> Seq<ValueM> {
    v.map_values(|x: Value| x@)
}

pub open spec fn entries_view(v: Seq<EmbeddedIndexEntry>) -> Seq<EntryM> {
    v.map_values(|x: EmbeddedIndexEntry| x@)
}

impl View for LogicalRecord {
    type V = RecordM;

    open spec fn view(&self) -> RecordM {
        match self {
            LogicalRecord::Catalog { table, columns } => RecordM::Catalog {
                table: table@,
                columns: columns_view(columns@),
            },
            LogicalRecord::Row { table, values } => RecordM::Row { table: table@, values: values_view(values@) },
            LogicalRecord::SecondaryIndexEntry { entry } => RecordM::Entry { entry: entry@ },
            LogicalRecord::SecondaryIndexMetadata {
                build_id,
                index_name,
                table_name,
                indexed_column,
                tie_break_mode,
            } => RecordM::Metadata {
                build_id: *build_id,
                index_name: index_name@,
                table_name: table_name@,
                indexed_column: *indexed_column,
                tie_break_mode: *tie_break_mode,
            },
            LogicalRecord::IndexedRow { table, values, entries } => RecordM::IndexedRow {
                table: table@,
                values: values_view(values@),
                entries: entries_view(entries@),
            },
            LogicalRecord::UpdateRow { table, row_position, values, entries } => RecordM::UpdateRow {
                table: table@,
                row_position: *row_position,
                values: values_view(values@),
                entries: entries_view(entries@),
            },
            LogicalRecord::DeleteRow { table, row_position } => RecordM::DeleteRow {
                table: table@,
                row_position: *row_position,
            },
        }
    }
}

/// An entry whose normalized name is the lower-case form of its name.
pub open spec fn entry_keyed(e: EmbeddedIndexEntry) -> bool {
    e.index_name_key@ == lower(e.index_name@)
}

// ----- encoding -----
pub open spec fn sql_prefix() -> Seq<u8> {
    seq![0x50u8, 0x44u8, 0x42u8, 0x53u8, 0x51u8, 0x4cu8, 0x31u8, 0u8]
}

pub open spec fn type_byte(t: ColumnType) -> u8 {
    match t {
        ColumnType::Int => 73u8,
        ColumnType::Text => 84u8,
    }
}

pub open spec fn tie_byte(t: TieBreakMode) -> u8 {
    match t {
        TieBreakMode::PrimaryKey => 80u8,
        TieBreakMode::RowPosition => 82u8,
    }
}

/// The two's-complement bit pattern of an `i64`, as an unsigned value.
pub open spec fn i64_bits(v: i64) -> int {
    if v < 0 {
        v + 18446744073709551616
    } else {
        v as int
    }
}

/// A string with a u16 length (the length is written modulo 2^16).
pub open spec fn enc_str16(s: Seq<u8>) -> Seq<u8> {
    bytes16(s.len() as int % 65536) + s
}

/// A string with a u32 length (the length is written modulo 2^32).
pub open spec fn enc_str32(s: Seq<u8>) -> Seq<u8> {
    bytes32(s.len() as int % 4294967296) + s
}

pub open spec fn value_text(v: ValueM) -> Seq<u8> {
    match v {
        ValueM::Int(i) => decimal(i as int),
        ValueM::Text(t) => t,
    }
}

pub open spec fn value_type(v: ValueM) -> ColumnType {
    match v {
        ValueM::Int(_) => ColumnType::Int,
        ValueM::Text(_) => ColumnType::Text,
    }
}

pub open spec fn enc_value(v: ValueM) -> Seq<u8> {
    seq![type_byte(value_type(v))] + enc_str32(value_text(v))
}

pub open spec fn enc_values(vs: Seq<ValueM>) -> Seq<u8>
    decreases vs.len(),
{
    if vs.len() == 0 {
        Seq::empty()
    } else {
        enc_values(vs.drop_last()) + enc_value(vs.last())
    }
}

pub open spec fn enc_row_body(table: Seq<u8>, values: Seq<ValueM>) -> Seq<u8> {
    enc_str16(table) + bytes16(values.len() as int % 65536) + enc_values(values)
}

pub open spec fn enc_entry(e: EntryM) -> Seq<u8> {
    bytes64(e.build_id as int) + enc_str16(e.index_name) + bytes64(i64_bits(e.indexed_key)) + bytes64(
        i64_bits(e.tie_break),
    ) + bytes64(e.row_position as int)
}

pub open spec fn enc_entries(es: Seq<EntryM>) -> Seq<u8>
    decreases es.len(),
{
    if es.len() == 0 {
        Seq::empty()
    } else {
        enc_entries(es.drop_last()) + enc_entry(es.last())
    }
}

pub open spec fn enc_columns(cs: Seq<ColumnM>) -> Seq<u8>
    decreases cs.len(),
{
    if cs.len() == 0 {
        Seq::empty()
    } else {
        enc_columns(cs.drop_last()) + enc_str16(cs.last().name) + seq![type_byte(cs.last().column_type)]
    }
}

/// The position of the first primary-key column, if any.
pub open spec fn first_primary_key(cs: Seq<ColumnM>) -> Option<int>
    decreases cs.len(),
{
    if cs.len() == 0 {
        None
    } else {
        match first_primary_key(cs.drop_last()) {
            Some(i) => Some(i),
            None => if cs.last().is_primary_key {
                Some(cs.len() - 1)
            } else {
                None
            },
        }
    }
}

/// The bytes of a record.
pub open spec fn encode_record(r: RecordM) -> Seq<u8> {
    match r {
        RecordM::Catalog { table, columns } => sql_prefix() + seq![67u8] + enc_str16(table) + bytes16(
            columns.len() as int % 65536,
        ) + enc_columns(columns) + match first_primary_key(columns) {
            Some(p) => seq![80u8] + bytes16(p % 65536),
            None => Seq::empty(),
        },
        RecordM::Row { table, values } => sql_prefix() + seq![82u8] + enc_row_body(table, values),
        RecordM::Entry { entry } => sql_prefix() + seq![69u8] + enc_entry(entry),
        RecordM::Metadata { build_id, index_name, table_name, indexed_column, tie_break_mode } =>
            sql_prefix() + seq![88u8] + bytes64(build_id as int) + enc_str16(index_name) + enc_str16(
            table_name,
        ) + bytes16(indexed_column as int) + seq![tie_byte(tie_break_mode)],
        RecordM::IndexedRow { table, values, entries } => sql_prefix() + seq![73u8] + enc_row_body(
            table,
            values,
        ) + bytes16(entries.len() as int % 65536) + enc_entries(entries),
        RecordM::UpdateRow { table, row_position, values, entries } => sql_prefix() + seq![85u8]
            + bytes64(row_position as int) + enc_row_body(table, values) + bytes16(
            entries.len() as int % 65536,
        ) + enc_entries(entries),
        RecordM::DeleteRow { table, row_position } => sql_prefix() + seq![68u8] + enc_str16(table)
            + bytes64(row_position as int),
    }
}

// ----- decoding -----
/// `n` bytes at `pos` that are valid UTF-8.
pub open spec fn p_str(b: Seq<u8>, pos: int, n: int) -> Option<(Seq<u8>, int)> {
    if 0 <= pos && 0 <= n && pos + n <= b.len() && valid_utf8(b.subrange(pos, pos + n)) {
        Some((b.subrange(pos, pos + n), pos + n))
    } else {
        None
    }
}

pub open spec fn p_str16(b: Seq<u8>, pos: int) -> Option<(Seq<u8>, int)> {
    if 0 <= pos && pos + 2 <= b.len() {
        p_str(b, pos + 2, le16(b, pos))
    } else {
        None
    }
}

pub open spec fn p_str32(b: Seq<u8>, pos: int) -> Option<(Seq<u8>, int)> {
    if 0 <= pos && pos + 4 <= b.len() {
        p_str(b, pos + 4, le32(b, pos))
    } else {
        None
    }
}

pub open spec fn type_of_byte(t: u8) -> Option<ColumnType> {
    if t == 73u8 {
        Some(ColumnType::Int)
    } else if t == 84u8 {
        Some(ColumnType::Text)
    } else {
        None
    }
}

pub open spec fn tie_of_byte(t: u8) -> Option<TieBreakMode> {
    if t == 80u8 {
        Some(TieBreakMode::PrimaryKey)
    } else if t == 82u8 {
        Some(TieBreakMode::RowPosition)
    } else {
        None
    }
}

/// A value: a type byte and its text; integers must be written as
/// `to_string` writes them.
pub open spec fn p_value(b: Seq<u8>, pos: int) -> Option<(ValueM, int)> {
    if 0 <= pos < b.len() {
        match type_of_byte(b[pos]) {
            None => None,
            Some(t) => match p_str32(b, pos + 1) {
                None => None,
                Some((s, next)) => match t {
                    ColumnType::Text => Some((ValueM::Text(s), next)),
                    ColumnType::Int => match parse_int(s) {
                        Some(i) => if decimal(i as int) == s {
                            Some((ValueM::Int(i), next))
                        } else {
                            None
                        },
                        None => None,
                    },
                },
            },
        }
    } else {
        None
    }
}

pub open spec fn p_values(b: Seq<u8>, pos: int, n: nat) -> Option<(Seq<ValueM>, int)>
    decreases n,
{
    if n == 0 {
        Some((Seq::empty(), pos))
    } else {
        match p_values(b, pos, (n - 1) as nat) {
            None => None,
            Some((vs, q)) => match p_value(b, q) {
                None => None,
                Some((v, r)) => Some((vs.push(v), r)),
            },
        }
    }
}

#[verifier::opaque]
pub open spec fn p_row_body(b: Seq<u8>, pos: int) -> Option<(Seq<u8>, Seq<ValueM>, int)> {
    match p_str16(b, pos) {
        None => None,
        Some((table, q)) => if q + 2 <= b.len() {
            match p_values(b, q + 2, le16(b, q) as nat) {
                None => None,
                Some((vs, r)) => Some((table, vs, r)),
            }
        } else {
            None
        },
    }
}

pub open spec fn as_i64(u: int) -> i64 {
    if u >= 9223372036854775808 {
        (u - 18446744073709551616) as i64
    } else {
        u as i64
    }
}

pub open spec fn p_entry(b: Seq<u8>, pos: int) -> Option<(EntryM, int)> {
    if 0 <= pos && pos + 8 <= b.len() {
        match p_str16(b, pos + 8) {
            None => None,
            Some((name, q)) => if q + 24 <= b.len() {
                Some(
                    (
                        EntryM {
                            build_id: le64(b, pos) as u64,
                            index_name: name,
                            indexed_key: as_i64(le64(b, q)),
                            tie_break: as_i64(le64(b, q + 8)),
                            row_position: le64(b, q + 16) as u64,
                        },
                        q + 24,
                    ),
                )
            } else {
                None
            },
        }
    } else {
        None
    }
}

pub open spec fn p_entries(b: Seq<u8>, pos: int, n: nat) -> Option<(Seq<EntryM>, int)>
    decreases n,
{
    if n == 0 {
        Some((Seq::empty(), pos))
    } else {
        match p_entries(b, pos, (n - 1) as nat) {
            None => None,
            Some((es, q)) => match p_entry(b, q) {
                None => None,
                Some((e, r)) => Some((es.push(e), r)),
            },
        }
    }
}

#[verifier::opaque]
pub open spec fn p_counted_entries(b: Seq<u8>, pos: int) -> Option<(Seq<EntryM>, int)> {
    if 0 <= pos && pos + 2 <= b.len() {
        p_entries(b, pos + 2, le16(b, pos) as nat)
    } else {
        None
    }
}

pub open spec fn p_column(b: Seq<u8>, pos: int) -> Option<(ColumnM, int)> {
    match p_str16(b, pos) {
        None => None,
        Some((name, q)) => if q < b.len() {
            match type_of_byte(b[q]) {
                None => None,
                Some(t) => Some((ColumnM { name, column_type: t, is_primary_key: false }, q + 1)),
            }
        } else {
            None
        },
    }
}

pub open spec fn p_columns(b: Seq<u8>, pos: int, n: nat) -> Option<(Seq<ColumnM>, int)>
    decreases n,
{
    if n == 0 {
        Some((Seq::empty(), pos))
    } else {
        match p_columns(b, pos, (n - 1) as nat) {
            None => None,
            Some((cs, q)) => match p_column(b, q) {
                None => None,
                Some((c, r)) => Some((cs.push(c), r)),
            },
        }
    }
}

/// A catalog record's optional primary-key extension, from `pos` to the end.
pub open spec fn p_catalog_tail(b: Seq<u8>, pos: int, cs: Seq<ColumnM>) -> Option<Seq<ColumnM>> {
    if pos == b.len() {
        Some(cs)
    } else if pos + 3 == b.len() && b[pos] == 80u8 && le16(b, pos + 1) < cs.len() {
        let i = le16(b, pos + 1);
        Some(cs.update(i, ColumnM { is_primary_key: true, ..cs[i] }))
    } else {
        None
    }
}

/// A catalog record's body.
#[verifier::opaque]
pub open spec fn dec_catalog(b: Seq<u8>) -> Option<RecordM> {
    match p_str16(b, 9) {
        None => None,
        Some((table, q)) => if q + 2 <= b.len() {
            match p_columns(b, q + 2, le16(b, q) as nat) {
                None => None,
                Some((cs, r)) => match p_catalog_tail(b, r, cs) {
                    None => None,
                    Some(columns) => Some(RecordM::Catalog { table, columns }),
                },
            }
        } else {
            None
        },
    }
}

/// A row record's body.
#[verifier::opaque]
pub open spec fn dec_row(b: Seq<u8>) -> Option<RecordM> {
    match p_row_body(b, 9) {
        Some((table, values, r)) => if r == b.len() {
            Some(RecordM::Row { table, values })
        } else {
            None
        },
        None => None,
    }
}

/// A secondary index entry record's body.
#[verifier::opaque]
pub open spec fn dec_entry(b: Seq<u8>) -> Option<RecordM> {
    match p_entry(b, 9) {
        Some((entry, r)) => if r == b.len() {
            Some(RecordM::Entry { entry })
        } else {
            None
        },
        None => None,
    }
}

/// A secondary index metadata record's body.
#[verifier::opaque]
pub open spec fn dec_metadata(b: Seq<u8>) -> Option<RecordM> {
    if 17 <= b.len() {
        match p_str16(b, 17) {
            None => None,
            Some((index_name, q)) => match p_str16(b, q) {
                None => None,
                Some((table_name, r)) => if r + 3 == b.len() {
                    match tie_of_byte(b[r + 2]) {
                        None => None,
                        Some(mode) => Some(
                            RecordM::Metadata {
                                build_id: le64(b, 9) as u64,
                                index_name,
                                table_name,
                                indexed_column: le16(b, r) as u16,
                                tie_break_mode: mode,
                            },
                        ),
                    }
                } else {
                    None
                },
            },
        }
    } else {
        None
    }
}

/// A row-with-entries record's body.
#[verifier::opaque]
pub open spec fn dec_indexed_row(b: Seq<u8>) -> Option<RecordM> {
    match p_row_body(b, 9) {
        None => None,
        Some((table, values, r)) => match p_counted_entries(b, r) {
            None => None,
            Some((entries, e)) => if e == b.len() {
                Some(RecordM::IndexedRow { table, values, entries })
            } else {
                None
            },
        },
    }
}

/// A row update record's body.
#[verifier::opaque]
pub open spec fn dec_update_row(b: Seq<u8>) -> Option<RecordM> {
    if 17 <= b.len() {
        match p_row_body(b, 17) {
            None => None,
            Some((table, values, r)) => match p_counted_entries(b, r) {
                None => None,
                Some((entries, e)) => if e == b.len() {
                    Some(RecordM::UpdateRow { table, row_position: le64(b, 9) as u64, values, entries })
                } else {
                    None
                },
            },
        }
    } else {
        None
    }
}

/// A row delete record's body.
#[verifier::opaque]
pub open spec fn dec_delete_row(b: Seq<u8>) -> Option<RecordM> {
    match p_str16(b, 9) {
        None => None,
        Some((table, q)) => if q + 8 == b.len() {
            Some(RecordM::DeleteRow { table, row_position: le64(b, q) as u64 })
        } else {
            None
        },
    }
}

/// The record that `b` holds, if it holds one: the prefix, a kind byte and
/// the body of that kind.
pub open spec fn decode_spec(b: Seq<u8>) -> Option<RecordM> {
    if b.len() < 9 || b.subrange(0, 8) != sql_prefix() {
        None
    } else {
        let kind = b[8];
        if kind == 67u8 {
            dec_catalog(b)
        } else if kind == 82u8 {
            dec_row(b)
        } else if kind == 69u8 {
            dec_entry(b)
        } else if kind == 88u8 {
            dec_metadata(b)
        } else if kind == 73u8 {
            dec_indexed_row(b)
        } else if kind == 85u8 {
            dec_update_row(b)
        } else if kind == 68u8 {
            dec_delete_row(b)
        } else {
            None
        }
    }
}

/// `std::str::from_utf8`: the text these bytes encode, exactly when they
/// are well-formed UTF-8; its bytes are the given bytes.
#[verifier::external_body]
pub(crate) fn utf8_text(b: &[u8]) -> (r: Option<&str>)
    ensures
        r is Some <==> valid_utf8(b@),
        r matches Some(s) ==> s.spec_bytes() == b@,
{
    std::str::from_utf8(b).ok()
}

fn rd_str(b: &[u8], pos: usize, n: usize) -> (r: Option<(Vec<u8>, usize)>)
    ensures
        match p_str(b@, pos as int, n as int) {
            Some((s, q)) => r matches Some((v, e)) && v@ == s && e == q,
            None => r is None,
        },
{
    if pos > b.len() || n > b.len() - pos {
        return None;
    }
    let v = crate::bytes::copy_range(b, pos, pos + n);
    if utf8_text(v.as_slice()).is_none() {
        return None;
    }
    Some((v, pos + n))
}

fn rd_str16(b: &[u8], pos: usize) -> (r: Option<(Vec<u8>, usize)>)
    ensures
        match p_str16(b@, pos as int) {
            Some((s, q)) => r matches Some((v, e)) && v@ == s && e == q,
            None => r is None,
        },
{
    if pos > b.len() || b.len() - pos < 2 {
        return None;
    }
    let n = read_le16(b, pos) as usize;
    rd_str(b, pos + 2, n)
}

fn rd_str32(b: &[u8], pos: usize) -> (r: Option<(Vec<u8>, usize)>)
    ensures
        match p_str32(b@, pos as int) {
            Some((s, q)) => r matches Some((v, e)) && v@ == s && e == q,
            None => r is None,
        },
{
    if pos > b.len() || b.len() - pos < 4 {
        return None;
    }
    let n = read_le32(b, pos) as usize;
    rd_str(b, pos + 4, n)
}

fn type_from_byte(t: u8) -> (r: Option<ColumnType>)
    ensures
        r == type_of_byte(t),
{
    if t == 73u8 {
        Some(ColumnType::Int)
    } else if t == 84u8 {
        Some(ColumnType::Text)
    } else {
        None
    }
}

fn tie_from_byte(t: u8) -> (r: Option<TieBreakMode>)
    ensures
        r == tie_of_byte(t),
{
    if t == 80u8 {
        Some(TieBreakMode::PrimaryKey)
    } else if t == 82u8 {
        Some(TieBreakMode::RowPosition)
    } else {
        None
    }
}

fn rd_value(b: &[u8], pos: usize) -> (r: Option<(Value, usize)>)
    ensures
        match p_value(b@, pos as int) {
            Some((m, q)) => r matches Some((v, e)) && v@ == m && e == q,
            None => r is None,
        },
{
    if pos >= b.len() {
        return None;
    }
    let t = type_from_byte(b[pos])?;
    let (raw, next) = rd_str32(b, pos + 1)?;
    match t {
        ColumnType::Text => Some((Value::Text(raw), next)),
        ColumnType::Int => {
            let parsed = parse_i64(raw.as_slice())?;
            let canonical = i64_to_decimal(parsed);
            if !crate::text::bytes_eq(canonical.as_slice(), raw.as_slice()) {
                return None;
            }
            Some((Value::Int(parsed), next))
        },
    }
}

fn rd_values(b: &[u8], pos: usize, n: u16) -> (r: Option<(Vec<Value>, usize)>)
    ensures
        match p_values(b@, pos as int, n as nat) {
            Some((m, q)) => r matches Some((v, e)) && values_view(v@) == m && e == q,
            None => r is None,
        },
{
    let mut values: Vec<Value> = Vec::new();
    let mut off = pos;
    let mut i: u16 = 0;
    assert(values_view(values@) =~= Seq::<ValueM>::empty());
    while i < n
        invariant
            i <= n,
            p_values(b@, pos as int, i as nat) == Some((values_view(values@), off as int)),
        decreases n - i,
    {
        proof {
            lemma_p_values_none_after(b@, pos as int, i as nat, n as nat);
        }
        let (v, next) = rd_value(b, off)?;
        let ghost before = values@;
        values.push(v);
        assert(values_view(values@) =~= values_view(before).push(v@));
        off = next;
        i = i + 1;
    }
    Some((values, off))
}

/// Once a list stops parsing it stays stopped for longer lists.
proof fn lemma_p_values_none_after(b: Seq<u8>, pos: int, i: nat, n: nat)
    requires
        i < n,
    ensures
        (p_values(b, pos, i) matches Some((_, q)) && p_value(b, q) is None) ==> p_values(b, pos, n) is None,
    decreases n,
{
    if n > i + 1 {
        lemma_p_values_none_after(b, pos, i, (n - 1) as nat);
    }
}

fn rd_row_body(b: &[u8], pos: usize) -> (r: Option<(Vec<u8>, Vec<Value>, usize)>)
    ensures
        match p_row_body(b@, pos as int) {
            Some((t, m, q)) => r matches Some((tv, v, e)) && tv@ == t && values_view(v@) == m && e == q,
            None => r is None,
        },
{
    proof {
        reveal(p_row_body);
    }
    let (table, q) = rd_str16(b, pos)?;
    if q > b.len() || b.len() - q < 2 {
        return None;
    }
    let n = read_le16(b, q);
    let (values, r) = rd_values(b, q + 2, n)?;
    Some((table, values, r))
}

fn i64_from_bits(u: u64) -> (r: i64)
    ensures
        r == as_i64(u as int),
{
    if u >= 9223372036854775808u64 {
        ((u - 9223372036854775808u64) as i64) - 9223372036854775807i64 - 1
    } else {
        u as i64
    }
}

fn rd_entry(b: &[u8], pos: usize) -> (r: Option<(EmbeddedIndexEntry, usize)>)
    ensures
        match p_entry(b@, pos as int) {
            Some((m, q)) => r matches Some((v, e)) && v@ == m && e == q && entry_keyed(v),
            None => r is None,
        },
{
    if pos > b.len() || b.len() - pos < 8 {
        return None;
    }
    let build_id = read_le64(b, pos);
    let (index_name, q) = rd_str16(b, pos + 8)?;
    if q > b.len() || b.len() - q < 24 {
        return None;
    }
    let indexed_key = i64_from_bits(read_le64(b, q));
    let tie_break = i64_from_bits(read_le64(b, q + 8));
    let row_position = read_le64(b, q + 16);
    let index_name_key = to_ascii_lowercase(index_name.as_slice());
    Some((EmbeddedIndexEntry { build_id, index_name_key, index_name, indexed_key, tie_break, row_position }, q + 24))
}

/// Whether every entry carries its normalized name.
pub open spec fn entries_keyed(v: Seq<EmbeddedIndexEntry>) -> bool {
    forall|i: int| 0 <= i < v.len() ==> entry_keyed(#[trigger] v[i])
}

proof fn lemma_p_entries_none_after(b: Seq<u8>, pos: int, i: nat, n: nat)
    requires
        i < n,
    ensures
        (p_entries(b, pos, i) matches Some((_, q)) && p_entry(b, q) is None) ==> p_entries(b, pos, n) is None,
    decreases n,
{
    if n > i + 1 {
        lemma_p_entries_none_after(b, pos, i, (n - 1) as nat);
    }
}

fn rd_counted_entries(b: &[u8], pos: usize) -> (r: Option<(Vec<EmbeddedIndexEntry>, usize)>)
    ensures
        match p_counted_entries(b@, pos as int) {
            Some((m, q)) => r matches Some((v, e)) && entries_view(v@) == m && e == q && entries_keyed(v@),
            None => r is None,
        },
{
    proof {
        reveal(p_counted_entries);
    }
    if pos > b.len() || b.len() - pos < 2 {
        return None;
    }
    let n = read_le16(b, pos);
    let start = pos + 2;
    let mut entries: Vec<EmbeddedIndexEntry> = Vec::new();
    let mut off = start;
    let mut i: u16 = 0;
    assert(entries_view(entries@) =~= Seq::<EntryM>::empty());
    while i < n
        invariant
            i <= n,
            p_entries(b@, start as int, i as nat) == Some((entries_view(entries@), off as int)),
            entries_keyed(entries@),
            start == pos + 2,
            pos + 2 <= b@.len(),
            n == le16(b@, pos as int),
        decreases n - i,
    {
        proof {
            reveal(p_counted_entries);
            lemma_p_entries_none_after(b@, start as int, i as nat, n as nat);
        }
        let (e, next) = rd_entry(b, off)?;
        let ghost before = entries@;
        entries.push(e);
        assert(entries_view(entries@) =~= entries_view(before).push(e@));
        off = next;
        i = i + 1;
    }
    Some((entries, off))
}

proof fn lemma_p_columns_none_after(b: Seq<u8>, pos: int, i: nat, n: nat)
    requires
        i < n,
    ensures
        (p_columns(b, pos, i) matches Some((_, q)) && p_column(b, q) is None) ==> p_columns(b, pos, n) is None,
    decreases n,
{
    if n > i + 1 {
        lemma_p_columns_none_after(b, pos, i, (n - 1) as nat);
    }
}

fn rd_columns(b: &[u8], pos: usize, n: u16) -> (r: Option<(Vec<Column>, usize)>)
    ensures
        match p_columns(b@, pos as int, n as nat) {
            Some((m, q)) => r matches Some((v, e)) && columns_view(v@) == m && e == q,
            None => r is None,
        },
{
    let mut columns: Vec<Column> = Vec::new();
    let mut off = pos;
    let mut i: u16 = 0;
    assert(columns_view(columns@) =~= Seq::<ColumnM>::empty());
    while i < n
        invariant
            i <= n,
            p_columns(b@, pos as int, i as nat) == Some((columns_view(columns@), off as int)),
        decreases n - i,
    {
        proof {
            lemma_p_columns_none_after(b@, pos as int, i as nat, n as nat);
        }
        let (name, q) = match rd_str16(b, off) {
            Some(x) => x,
            None => {
                return None;
            },
        };
        if q >= b.len() {
            return None;
        }
        let column_type = match type_from_byte(b[q]) {
            Some(t) => t,
            None => {
                return None;
            },
        };
        let ghost before = columns@;
        let c = Column { name, column_type, is_primary_key: false };
        columns.push(c);
        assert(columns_view(columns@) =~= columns_view(before).push(c@));
        off = q + 1;
        i = i + 1;
    }
    Some((columns, off))
}

/// Whether every embedded entry of a record carries its normalized name.
pub open spec fn record_keyed(r: LogicalRecord) -> bool {
    match r {
        LogicalRecord::SecondaryIndexEntry { entry } => entry_keyed(entry),
        LogicalRecord::IndexedRow { entries, .. } => entries_keyed(entries@),
        LogicalRecord::UpdateRow { entries, .. } => entries_keyed(entries@),
        _ => true,
    }
}

pub fn sql_prefix_bytes() -> (r: Vec<u8>)
    ensures
        r@ == sql_prefix(),
{
    let r: Vec<u8> = vec![0x50u8, 0x44u8, 0x42u8, 0x53u8, 0x51u8, 0x4cu8, 0x31u8, 0u8];
    assert(r@ =~= sql_prefix());
    r
}

fn decode_catalog(b: &[u8]) -> (r: Option<LogicalRecord>)
    requires
        b@.len() >= 9,
        b@[8] == 67u8,
        b@.subrange(0, 8) == sql_prefix(),
    ensures
        match decode_spec(b@) {
            Some(m) => r matches Some(x) && x@ == m && record_keyed(x),
            None => r is None,
        },
{
    proof {
        reveal(dec_catalog);
    }
    let (table, q) = rd_str16(b, 9)?;
    if q > b.len() || b.len() - q < 2 {
        return None;
    }
    let n = read_le16(b, q);
    let (mut columns, r) = rd_columns(b, q + 2, n)?;
    if r == b.len() {
        return Some(LogicalRecord::Catalog { table, columns });
    }
    if r > b.len() || b.len() - r != 3 || b[r] != 80u8 {
        return None;
    }
    let i = read_le16(b, r + 1) as usize;
    if i >= columns.len() {
        return None;
    }
    let ghost before = columns_view(columns@);
    let mut c = columns.remove(i);
    c.is_primary_key = true;
    columns.insert(i, c);
    assert(columns_view(columns@) =~= before.update(i as int, ColumnM { is_primary_key: true, ..before[i as int] }));
    Some(LogicalRecord::Catalog { table, columns })
}

/// Decodes a stored record; `None` when the bytes hold no record.
pub fn decode_record(b: &[u8]) -> (r: Option<LogicalRecord>)
    ensures
        match decode_spec(b@) {
            Some(m) => r matches Some(x) && x@ == m && record_keyed(x),
            None => r is None,
        },
{
    let prefix = sql_prefix_bytes();
    if b.len() < 9 || !crate::bytes::bytes_match_at(b, 0, prefix.as_slice()) {
        return None;
    }
    let kind = b[8];
    if kind == 67u8 {
        decode_catalog(b)
    } else if kind == 82u8 {
        proof {
            reveal(dec_row);
        }
        let (table, values, r) = rd_row_body(b, 9)?;
        if r != b.len() {
            return None;
        }
        Some(LogicalRecord::Row { table, values })
    } else if kind == 69u8 {
        proof {
            reveal(dec_entry);
        }
        let (entry, r) = rd_entry(b, 9)?;
        if r != b.len() {
            return None;
        }
        Some(LogicalRecord::SecondaryIndexEntry { entry })
    } else if kind == 88u8 {
        proof {
            reveal(dec_metadata);
        }
        if b.len() < 17 {
            return None;
        }
        let build_id = read_le64(b, 9);
        let (index_name, q) = rd_str16(b, 17)?;
        let (table_name, r) = rd_str16(b, q)?;
        if r > b.len() || b.len() - r != 3 {
            return None;
        }
        let indexed_column = read_le16(b, r);
        let tie_break_mode = tie_from_byte(b[r + 2])?;
        Some(LogicalRecord::SecondaryIndexMetadata { build_id, index_name, table_name, indexed_column, tie_break_mode })
    } else if kind == 73u8 {
        proof {
            reveal(dec_indexed_row);
        }
        let (table, values, r) = rd_row_body(b, 9)?;
        let (entries, e) = rd_counted_entries(b, r)?;
        if e != b.len() {
            return None;
        }
        Some(LogicalRecord::IndexedRow { table, values, entries })
    } else if kind == 85u8 {
        proof {
            reveal(dec_update_row);
        }
        if b.len() < 17 {
            return None;
        }
        let row_position = read_le64(b, 9);
        let (table, values, r) = rd_row_body(b, 17)?;
        let (entries, e) = rd_counted_entries(b, r)?;
        if e != b.len() {
            return None;
        }
        Some(LogicalRecord::UpdateRow { table, row_position, values, entries })
    } else if kind == 68u8 {
        proof {
            reveal(dec_delete_row);
        }
        let (table, q) = rd_str16(b, 9)?;
        if q > b.len() || b.len() - q != 8 {
            return None;
        }
        let row_position = read_le64(b, q);
        Some(LogicalRecord::DeleteRow { table, row_position })
    } else {
        None
    }
}

fn write_string_u16(out: &mut Vec<u8>, s: &[u8])
    ensures
        final(out)@ == old(out)@ + enc_str16(s@),
{
    push_le16(out, (s.len() % 65536) as u16);
    push_all(out, s);
    assert(final(out)@ =~= old(out)@ + enc_str16(s@));
}

fn write_string_u32(out: &mut Vec<u8>, s: &[u8])
    ensures
        final(out)@ == old(out)@ + enc_str32(s@),
{
    push_le32(out, ((s.len() as u64) % 4294967296) as u32);
    push_all(out, s);
    assert(final(out)@ =~= old(out)@ + enc_str32(s@));
}

fn i64_to_bits(v: i64) -> (r: u64)
    ensures
        r == i64_bits(v),
{
    if v < 0 {
        ((v - i64::MIN) as u64) + 9223372036854775808u64
    } else {
        v as u64
    }
}

pub fn type_to_byte(t: ColumnType) -> (r: u8)
    ensures
        r == type_byte(t),
{
    match t {
        ColumnType::Int => 73u8,
        ColumnType::Text => 84u8,
    }
}

pub fn tie_to_byte(t: TieBreakMode) -> (r: u8)
    ensures
        r == tie_byte(t),
{
    match t {
        TieBreakMode::PrimaryKey => 80u8,
        TieBreakMode::RowPosition => 82u8,
    }
}

fn encode_values(out: &mut Vec<u8>, values: &[Value])
    ensures
        final(out)@ == old(out)@ + enc_values(values_view(values@)),
{
    let mut i: usize = 0;
    while i < values.len()
        invariant
            i <= values@.len(),
            out@ == old(out)@ + enc_values(values_view(values@.subrange(0, i as int))),
        decreases values@.len() - i,
    {
        let ghost before = out@;
        match &values[i] {
            Value::Int(v) => {
                out.push(73u8);
                let text = i64_to_decimal(*v);
                write_string_u32(out, text.as_slice());
            },
            Value::Text(t) => {
                out.push(84u8);
                write_string_u32(out, t.as_slice());
            },
        }
        proof {
            let vs = values_view(values@.subrange(0, i + 1));
            assert(vs.drop_last() =~= values_view(values@.subrange(0, i as int)));
            assert(vs.last() == values@[i as int]@);
            assert(out@ =~= before + enc_value(values@[i as int]@));
        }
        i = i + 1;
    }
    assert(values@.subrange(0, values@.len() as int) =~= values@);
}

fn encode_row_body(out: &mut Vec<u8>, table: &[u8], values: &[Value])
    ensures
        final(out)@ == old(out)@ + enc_row_body(table@, values_view(values@)),
{
    write_string_u16(out, table);
    push_le16(out, (values.len() % 65536) as u16);
    encode_values(out, values);
    assert(final(out)@ =~= old(out)@ + enc_row_body(table@, values_view(values@)));
}

fn encode_entry(out: &mut Vec<u8>, e: &EmbeddedIndexEntry)
    ensures
        final(out)@ == old(out)@ + enc_entry(e@),
{
    push_le64(out, e.build_id);
    write_string_u16(out, e.index_name.as_slice());
    push_le64(out, i64_to_bits(e.indexed_key));
    push_le64(out, i64_to_bits(e.tie_break));
    push_le64(out, e.row_position);
    assert(final(out)@ =~= old(out)@ + enc_entry(e@));
}

#[verifier::rlimit(30)]
fn encode_entries(out: &mut Vec<u8>, entries: &[EmbeddedIndexEntry])
    ensures
        final(out)@ == old(out)@ + bytes16(entries@.len() as int % 65536) + enc_entries(
            entries_view(entries@),
        ),
{
    push_le16(out, (entries.len() % 65536) as u16);
    let ghost start = out@;
    let mut i: usize = 0;
    while i < entries.len()
        invariant
            i <= entries@.len(),
            out@ == start + enc_entries(entries_view(entries@.subrange(0, i as int))),
        decreases entries@.len() - i,
    {
        let ghost before = out@;
        encode_entry(out, &entries[i]);
        proof {
            let es = entries_view(entries@.subrange(0, i + 1));
            assert(es.drop_last() =~= entries_view(entries@.subrange(0, i as int)));
            assert(es.last() == entries@[i as int]@);
        }
        i = i + 1;
    }
    assert(entries@.subrange(0, entries@.len() as int) =~= entries@);
    assert(final(out)@ =~= old(out)@ + bytes16(entries@.len() as int % 65536) + enc_entries(
        entries_view(entries@),
    ));
}

/// Encodes a catalog record.
pub fn encode_catalog_record(table: &[u8], columns: &[Column]) -> (r: Vec<u8>)
    ensures
        r@ == encode_record(RecordM::Catalog { table: table@, columns: columns_view(columns@) }),
{
    let mut out = sql_prefix_bytes();
    out.push(67u8);
    write_string_u16(&mut out, table);
    push_le16(&mut out, (columns.len() % 65536) as u16);
    let ghost start = out@;
    let mut i: usize = 0;
    let mut pk: Option<usize> = None;
    while i < columns.len()
        invariant
            i <= columns@.len(),
            out@ == start + enc_columns(columns_view(columns@.subrange(0, i as int))),
            first_primary_key(columns_view(columns@.subrange(0, i as int))) == match pk {
                Some(p) => Some(p as int),
                None => None::<int>,
            },
        decreases columns@.len() - i,
    {
        let ghost before = out@;
        write_string_u16(&mut out, columns[i].name.as_slice());
        out.push(type_to_byte(columns[i].column_type));
        proof {
            let cs = columns_view(columns@.subrange(0, i + 1));
            assert(cs.drop_last() =~= columns_view(columns@.subrange(0, i as int)));
            assert(cs.last() == columns@[i as int]@);
            assert(out@ =~= start + enc_columns(cs));
        }
        if pk.is_none() && columns[i].is_primary_key {
            pk = Some(i);
        }
        i = i + 1;
    }
    assert(columns@.subrange(0, columns@.len() as int) =~= columns@);
    match pk {
        Some(p) => {
            out.push(80u8);
            push_le16(&mut out, (p % 65536) as u16);
        },
        None => {},
    }
    assert(out@ =~= encode_record(RecordM::Catalog { table: table@, columns: columns_view(columns@) }));
    out
}

/// Encodes a row record.
pub fn encode_row_record(table: &[u8], values: &[Value]) -> (r: Vec<u8>)
    ensures
        r@ == encode_record(RecordM::Row { table: table@, values: values_view(values@) }),
{
    let mut out = sql_prefix_bytes();
    out.push(82u8);
    encode_row_body(&mut out, table, values);
    assert(out@ =~= encode_record(RecordM::Row { table: table@, values: values_view(values@) }));
    out
}

/// Encodes a secondary index metadata record.
pub fn encode_secondary_metadata_record(
    build_id: u64,
    index_name: &[u8],
    table_name: &[u8],
    indexed_column: u16,
    tie_break_mode: TieBreakMode,
) -> (r: Vec<u8>)
    ensures
        r@ == encode_record(
            RecordM::Metadata {
                build_id,
                index_name: index_name@,
                table_name: table_name@,
                indexed_column,
                tie_break_mode,
            },
        ),
{
    let mut out = sql_prefix_bytes();
    out.push(88u8);
    push_le64(&mut out, build_id);
    write_string_u16(&mut out, index_name);
    write_string_u16(&mut out, table_name);
    push_le16(&mut out, indexed_column);
    out.push(tie_to_byte(tie_break_mode));
    assert(out@ =~= encode_record(
        RecordM::Metadata {
            build_id,
            index_name: index_name@,
            table_name: table_name@,
            indexed_column,
            tie_break_mode,
        },
    ));
    out
}

/// Encodes a standalone secondary index entry record.
pub fn encode_secondary_entry_record(entry: &EmbeddedIndexEntry) -> (r: Vec<u8>)
    ensures
        r@ == encode_record(RecordM::Entry { entry: entry@ }),
{
    let mut out = sql_prefix_bytes();
    out.push(69u8);
    encode_entry(&mut out, entry);
    assert(out@ =~= encode_record(RecordM::Entry { entry: entry@ }));
    out
}

/// Encodes a row together with its secondary index entries.
pub fn encode_indexed_row_record(table: &[u8], values: &[Value], entries: &[EmbeddedIndexEntry]) -> (r: Vec<u8>)
    ensures
        r@ == encode_record(
            RecordM::IndexedRow {
                table: table@,
                values: values_view(values@),
                entries: entries_view(entries@),
            },
        ),
{
    let mut out = sql_prefix_bytes();
    out.push(73u8);
    encode_row_body(&mut out, table, values);
    encode_entries(&mut out, entries);
    assert(out@ =~= encode_record(
        RecordM::IndexedRow { table: table@, values: values_view(values@), entries: entries_view(entries@) },
    ));
    out
}

/// Encodes a row update with the row's new secondary index entries.
pub fn encode_update_row_record(
    table: &[u8],
    row_position: u64,
    values: &[Value],
    entries: &[EmbeddedIndexEntry],
) -> (r: Vec<u8>)
    ensures
        r@ == encode_record(
            RecordM::UpdateRow {
                table: table@,
                row_position,
                values: values_view(values@),
                entries: entries_view(entries@),
            },
        ),
{
    let mut out = sql_prefix_bytes();
    out.push(85u8);
    push_le64(&mut out, row_position);
    encode_row_body(&mut out, table, values);
    encode_entries(&mut out, entries);
    assert(out@ =~= encode_record(
        RecordM::UpdateRow {
            table: table@,
            row_position,
            values: values_view(values@),
            entries: entries_view(entries@),
        },
    ));
    out
}

/// Encodes a row delete.
pub fn encode_delete_row_record(table: &[u8], row_position: u64) -> (r: Vec<u8>)
    ensures
        r@ == encode_record(RecordM::DeleteRow { table: table@, row_position }),
{
    let mut out = sql_prefix_bytes();
    out.push(68u8);
    write_string_u16(&mut out, table);
    push_le64(&mut out, row_position);
    assert(out@ =~= encode_record(RecordM::DeleteRow { table: table@, row_position }));
    out
}

// ----- decoding what was encoded -----
/// A name that its u16 length field holds exactly, in UTF-8.
pub open spec fn str16_ok(s: Seq<u8>) -> bool {
    s.len() < 65536 && valid_utf8(s)
}

pub open spec fn value_ok(v: ValueM) -> bool {
    match v {
        ValueM::Int(_) => true,
        ValueM::Text(t) => t.len() < 4294967296 && valid_utf8(t),
    }
}

pub open spec fn values_ok(vs: Seq<ValueM>) -> bool {
    vs.len() < 65536 && forall|i: int| 0 <= i < vs.len() ==> value_ok(#[trigger] vs[i])
}

pub open spec fn entries_ok(es: Seq<EntryM>) -> bool {
    es.len() < 65536 && forall|i: int| 0 <= i < es.len() ==> str16_ok(#[trigger] es[i].index_name)
}

/// Columns a catalog record holds exactly: names fit and at most one
/// column is the primary key.
pub open spec fn columns_ok(cs: Seq<ColumnM>) -> bool {
    &&& cs.len() < 65536
    &&& forall|i: int| 0 <= i < cs.len() ==> str16_ok(#[trigger] cs[i].name)
    &&& forall|i: int, j: int|
        0 <= i < cs.len() && 0 <= j < cs.len() && cs[i].is_primary_key && cs[j].is_primary_key ==> i == j
}

/// A record whose encoding holds all of it.
pub open spec fn record_ok(r: RecordM) -> bool {
    match r {
        RecordM::Catalog { table, columns } => str16_ok(table) && columns_ok(columns),
        RecordM::Row { table, values } => str16_ok(table) && values_ok(values),
        RecordM::Entry { entry } => str16_ok(entry.index_name),
        RecordM::Metadata { index_name, table_name, .. } => str16_ok(index_name) && str16_ok(table_name),
        RecordM::IndexedRow { table, values, entries } => str16_ok(table) && values_ok(values)
            && entries_ok(entries),
        RecordM::UpdateRow { table, values, entries, .. } => str16_ok(table) && values_ok(values)
            && entries_ok(entries),
        RecordM::DeleteRow { table, .. } => str16_ok(table),
    }
}

/// ASCII bytes are well-formed UTF-8.
pub proof fn lemma_ascii_valid_utf8(s: Seq<u8>)
    requires
        forall|i: int| 0 <= i < s.len() ==> s[i] < 128,
    ensures
        valid_utf8(s),
{
    assert(s.subrange(0, 0) =~= Seq::<u8>::empty());
    assert(vstd::utf8::partial_valid_utf8(s, 0));
    assert forall|i: int| 0 <= 0 <= i < s.len() <= s.len() implies #[trigger] vstd::utf8::is_leading_byte_width_1(s[i]) by {}
    vstd::utf8::partial_valid_utf8_extend_ascii_block(s, 0, s.len() as int);
    assert(s.subrange(0, s.len() as int) =~= s);
}

#[verifier::spinoff_prover]
proof fn lemma_p_str16(b: Seq<u8>, pos: int, s: Seq<u8>)
    requires
        0 <= pos,
        pos + enc_str16(s).len() <= b.len(),
        b.subrange(pos, pos + enc_str16(s).len()) == enc_str16(s),
        str16_ok(s),
    ensures
        p_str16(b, pos) == Some((s, pos + enc_str16(s).len())),
{
    let h = bytes16(s.len() as int % 65536);
    crate::bytes::lemma_bytes16(s.len() as int);
    lemma_split(b, pos, h, s);
    lemma_read_bytes(b, pos, s.len() as int);
}

#[verifier::spinoff_prover]
proof fn lemma_p_str32(b: Seq<u8>, pos: int, s: Seq<u8>)
    requires
        0 <= pos,
        pos + enc_str32(s).len() <= b.len(),
        b.subrange(pos, pos + enc_str32(s).len()) == enc_str32(s),
        s.len() < 4294967296,
        valid_utf8(s),
    ensures
        p_str32(b, pos) == Some((s, pos + enc_str32(s).len())),
{
    let h = bytes32(s.len() as int % 4294967296);
    crate::bytes::lemma_bytes32(s.len() as int);
    lemma_split(b, pos, h, s);
    lemma_read_bytes(b, pos, s.len() as int);
}

proof fn lemma_decimal_ascii(i: int)
    requires
        -18446744073709551616 < i < 18446744073709551616,
    ensures
        forall|k: int| 0 <= k < decimal(i).len() ==> decimal(i)[k] < 128,
        decimal(i).len() < 4294967296,
{
    let n: nat = if i < 0 { (-i) as nat } else { i as nat };
    crate::text::lemma_digits_of(n);
    crate::text::lemma_digits_len(n);
    let d = crate::text::digits_of(n);
    assert forall|k: int| 0 <= k < d.len() implies d[k] < 128 by {
        assert(crate::text::is_digit(d[k]));
    }
    if i < 0 {
        assert forall|k: int| 0 <= k < decimal(i).len() implies decimal(i)[k] < 128 by {
            if k > 0 {
                assert(decimal(i)[k] == d[k - 1]);
            }
        }
    }
}

#[verifier::spinoff_prover]
proof fn lemma_p_value(b: Seq<u8>, pos: int, v: ValueM)
    requires
        0 <= pos,
        pos + enc_value(v).len() <= b.len(),
        b.subrange(pos, pos + enc_value(v).len()) == enc_value(v),
        value_ok(v),
    ensures
        p_value(b, pos) == Some((v, pos + enc_value(v).len())),
{
    let t = value_text(v);
    let tb = seq![type_byte(value_type(v))];
    lemma_split(b, pos, tb, enc_str32(t));
    assert(b[pos] == b.subrange(pos, pos + 1)[0]);
    match v {
        ValueM::Int(i) => {
            lemma_decimal_ascii(i as int);
            lemma_ascii_valid_utf8(t);
            lemma_p_str32(b, pos + 1, t);
            crate::text::lemma_parse_decimal(i);
        },
        ValueM::Text(_) => {
            lemma_p_str32(b, pos + 1, t);
        },
    }
}

#[verifier::spinoff_prover]
proof fn lemma_p_values(b: Seq<u8>, pos: int, vs: Seq<ValueM>)
    requires
        0 <= pos,
        pos + enc_values(vs).len() <= b.len(),
        b.subrange(pos, pos + enc_values(vs).len()) == enc_values(vs),
        forall|i: int| 0 <= i < vs.len() ==> value_ok(#[trigger] vs[i]),
    ensures
        p_values(b, pos, vs.len()) == Some((vs, pos + enc_values(vs).len())),
    decreases vs.len(),
{
    if vs.len() > 0 {
        let init = vs.drop_last();
        let ei = enc_values(init);
        let el = enc_value(vs.last());
        lemma_split(b, pos, ei, el);
        assert forall|i: int| 0 <= i < init.len() implies value_ok(#[trigger] init[i]) by {
            assert(init[i] == vs[i]);
        }
        lemma_p_values(b, pos, init);
        assert(value_ok(vs[vs.len() - 1]));
        lemma_p_value(b, pos + ei.len(), vs.last());
        assert(init.push(vs.last()) =~= vs);
        assert((vs.len() - 1) as nat == init.len());
    }
}

#[verifier::spinoff_prover]
proof fn lemma_p_row_body(b: Seq<u8>, pos: int, table: Seq<u8>, vs: Seq<ValueM>)
    requires
        0 <= pos,
        pos + enc_row_body(table, vs).len() <= b.len(),
        b.subrange(pos, pos + enc_row_body(table, vs).len()) == enc_row_body(table, vs),
        str16_ok(table),
        values_ok(vs),
    ensures
        p_row_body(b, pos) == Some((table, vs, pos + enc_row_body(table, vs).len())),
{
    reveal(p_row_body);
    let et = enc_str16(table);
    let h = bytes16(vs.len() as int % 65536);
    let ev = enc_values(vs);
    crate::bytes::lemma_bytes16(vs.len() as int);
    lemma_split(b, pos, et + h, ev);
    lemma_split(b, pos, et, h);
    lemma_p_str16(b, pos, table);
    lemma_read_bytes(b, pos + et.len(), vs.len() as int);
    lemma_p_values(b, pos + et.len() + 2, vs);
}

proof fn lemma_as_i64(v: i64)
    ensures
        as_i64(i64_bits(v)) == v,
        0 <= i64_bits(v) < 18446744073709551616,
{
}

#[verifier::spinoff_prover]
proof fn lemma_p_entry(b: Seq<u8>, pos: int, e: EntryM)
    requires
        0 <= pos,
        pos + enc_entry(e).len() <= b.len(),
        b.subrange(pos, pos + enc_entry(e).len()) == enc_entry(e),
        str16_ok(e.index_name),
    ensures
        p_entry(b, pos) == Some((e, pos + enc_entry(e).len())),
{
    let b0 = bytes64(e.build_id as int);
    let es = enc_str16(e.index_name);
    let b1 = bytes64(i64_bits(e.indexed_key));
    let b2 = bytes64(i64_bits(e.tie_break));
    let b3 = bytes64(e.row_position as int);
    lemma_as_i64(e.indexed_key);
    lemma_as_i64(e.tie_break);
    crate::bytes::lemma_bytes64(e.build_id as int);
    crate::bytes::lemma_bytes64(i64_bits(e.indexed_key));
    crate::bytes::lemma_bytes64(i64_bits(e.tie_break));
    crate::bytes::lemma_bytes64(e.row_position as int);
    lemma_split(b, pos, b0 + es + b1 + b2, b3);
    lemma_split(b, pos, b0 + es + b1, b2);
    lemma_split(b, pos, b0 + es, b1);
    lemma_split(b, pos, b0, es);
    let q = pos + 8 + es.len();
    lemma_read_bytes(b, pos, e.build_id as int);
    lemma_p_str16(b, pos + 8, e.index_name);
    lemma_read_bytes(b, q, i64_bits(e.indexed_key));
    lemma_read_bytes(b, q + 8, i64_bits(e.tie_break));
    lemma_read_bytes(b, q + 16, e.row_position as int);
    assert(le64(b, pos) as u64 == e.build_id);
    assert(as_i64(le64(b, q)) == e.indexed_key);
    assert(as_i64(le64(b, q + 8)) == e.tie_break);
    assert(le64(b, q + 16) as u64 == e.row_position);
    assert(q + 24 == pos + enc_entry(e).len());
}

#[verifier::spinoff_prover]
#[verifier::rlimit(60)]
proof fn lemma_p_entries(b: Seq<u8>, pos: int, es: Seq<EntryM>)
    requires
        0 <= pos,
        pos + enc_entries(es).len() <= b.len(),
        b.subrange(pos, pos + enc_entries(es).len()) == enc_entries(es),
        forall|i: int| 0 <= i < es.len() ==> str16_ok(#[trigger] es[i].index_name),
    ensures
        p_entries(b, pos, es.len()) == Some((es, pos + enc_entries(es).len())),
    decreases es.len(),
{
    if es.len() > 0 {
        let init = es.drop_last();
        let ei = enc_entries(init);
        let el = enc_entry(es.last());
        lemma_split(b, pos, ei, el);
        assert forall|i: int| 0 <= i < init.len() implies str16_ok(#[trigger] init[i].index_name) by {
            assert(init[i] == es[i]);
        }
        lemma_p_entries(b, pos, init);
        assert(str16_ok(es[es.len() - 1].index_name));
        lemma_p_entry(b, pos + ei.len(), es.last());
        assert(init.push(es.last()) =~= es);
        assert((es.len() - 1) as nat == init.len());
    }
}

#[verifier::spinoff_prover]
#[verifier::rlimit(60)]
proof fn lemma_p_counted_entries(b: Seq<u8>, pos: int, es: Seq<EntryM>)
    requires
        0 <= pos,
        pos + 2 + enc_entries(es).len() <= b.len(),
        b.subrange(pos, pos + 2 + enc_entries(es).len()) == bytes16(es.len() as int % 65536) + enc_entries(es),
        entries_ok(es),
    ensures
        p_counted_entries(b, pos) == Some((es, pos + 2 + enc_entries(es).len())),
{
    reveal(p_counted_entries);
    crate::bytes::lemma_bytes16(es.len() as int);
    lemma_split(b, pos, bytes16(es.len() as int % 65536), enc_entries(es));
    lemma_read_bytes(b, pos, es.len() as int);
    assert(le16(b, pos) as nat == es.len());
    lemma_p_entries(b, pos + 2, es);
}

/// The columns with no primary key marked.
pub open spec fn unkeyed(cs: Seq<ColumnM>) -> Seq<ColumnM> {
    cs.map_values(|c: ColumnM| ColumnM { is_primary_key: false, ..c })
}

proof fn lemma_first_primary_key(cs: Seq<ColumnM>)
    ensures
        match first_primary_key(cs) {
            Some(p) => 0 <= p < cs.len() && cs[p].is_primary_key && forall|j: int|
                0 <= j < p ==> !(#[trigger] cs[j]).is_primary_key,
            None => forall|j: int| 0 <= j < cs.len() ==> !(#[trigger] cs[j]).is_primary_key,
        },
    decreases cs.len(),
{
    if cs.len() > 0 {
        let init = cs.drop_last();
        lemma_first_primary_key(init);
        assert forall|j: int| 0 <= j < init.len() implies init[j] == cs[j] by {}
    }
}

#[verifier::spinoff_prover]
proof fn lemma_p_column(b: Seq<u8>, pos: int, c: ColumnM)
    requires
        0 <= pos,
        pos + enc_str16(c.name).len() + 1 <= b.len(),
        b.subrange(pos, pos + enc_str16(c.name).len() + 1) == enc_str16(c.name) + seq![type_byte(c.column_type)],
        str16_ok(c.name),
    ensures
        p_column(b, pos) == Some((ColumnM { is_primary_key: false, ..c }, pos + enc_str16(c.name).len() + 1)),
{
    let en = enc_str16(c.name);
    lemma_split(b, pos, en, seq![type_byte(c.column_type)]);
    lemma_p_str16(b, pos, c.name);
    assert(b[pos + en.len()] == b.subrange(pos + en.len(), pos + en.len() + 1)[0]);
}

#[verifier::spinoff_prover]
proof fn lemma_p_columns(b: Seq<u8>, pos: int, cs: Seq<ColumnM>)
    requires
        0 <= pos,
        pos + enc_columns(cs).len() <= b.len(),
        b.subrange(pos, pos + enc_columns(cs).len()) == enc_columns(cs),
        forall|i: int| 0 <= i < cs.len() ==> str16_ok(#[trigger] cs[i].name),
    ensures
        p_columns(b, pos, cs.len()) == Some((unkeyed(cs), pos + enc_columns(cs).len())),
    decreases cs.len(),
{
    if cs.len() > 0 {
        let init = cs.drop_last();
        let ei = enc_columns(init);
        let c = cs.last();
        let el = enc_str16(c.name) + seq![type_byte(c.column_type)];
        assert(enc_columns(cs) =~= ei + el);
        lemma_split(b, pos, ei, el);
        assert forall|i: int| 0 <= i < init.len() implies str16_ok(#[trigger] init[i].name) by {
            assert(init[i] == cs[i]);
        }
        lemma_p_columns(b, pos, init);
        assert(str16_ok(cs[cs.len() - 1].name));
        lemma_p_column(b, pos + ei.len(), c);
        assert(unkeyed(init).push(ColumnM { is_primary_key: false, ..c }) =~= unkeyed(cs));
        assert((cs.len() - 1) as nat == init.len());
    }
}

/// The start of every record: the prefix and the kind byte.
proof fn lemma_head(b: Seq<u8>, k: u8, rest: Seq<u8>)
    requires
        b == sql_prefix() + seq![k] + rest,
    ensures
        b.len() >= 9,
        b.subrange(0, 8) == sql_prefix(),
        b[8] == k,
        b.subrange(9, b.len() as int) == rest,
{
    assert(b.subrange(0, 8) =~= sql_prefix());
    assert(b.subrange(9, b.len() as int) =~= rest);
}

#[verifier::spinoff_prover]
#[verifier::rlimit(60)]
proof fn lemma_decode_catalog(table: Seq<u8>, cs: Seq<ColumnM>)
    requires
        str16_ok(table),
        columns_ok(cs),
    ensures
        decode_spec(encode_record(RecordM::Catalog { table, columns: cs })) == Some(
            RecordM::Catalog { table, columns: cs },
        ),
{
    reveal(dec_catalog);
    let b = encode_record(RecordM::Catalog { table, columns: cs });
    let et = enc_str16(table);
    let h = bytes16(cs.len() as int % 65536);
    let ec = enc_columns(cs);
    let tail = match first_primary_key(cs) {
        Some(p) => seq![80u8] + bytes16(p % 65536),
        None => Seq::empty(),
    };
    let rest = et + h + ec + tail;
    assert(b =~= sql_prefix() + seq![67u8] + rest);
    lemma_head(b, 67u8, rest);
    assert(b.subrange(9, 9 + rest.len() as int) == rest);
    lemma_split(b, 9, et + h + ec, tail);
    lemma_split(b, 9, et + h, ec);
    lemma_split(b, 9, et, h);
    lemma_p_str16(b, 9, table);
    let q: int = 9 + et.len() as int;
    crate::bytes::lemma_bytes16(cs.len() as int);
    lemma_read_bytes(b, q, cs.len() as int);
    assert(le16(b, q) as nat == cs.len());
    lemma_p_columns(b, q + 2, cs);
    let r: int = q + 2 + ec.len();
    lemma_first_primary_key(cs);
    match first_primary_key(cs) {
        Some(p) => {
            lemma_split(b, r, seq![80u8], bytes16(p % 65536));
            assert(b[r] == b.subrange(r, r + 1)[0]);
            crate::bytes::lemma_bytes16(p);
            lemma_read_bytes(b, r + 1, p);
            assert(unkeyed(cs).update(p, ColumnM { is_primary_key: true, ..unkeyed(cs)[p] }) =~= cs);
        },
        None => {
            assert(unkeyed(cs) =~= cs);
        },
    }
}

#[verifier::spinoff_prover]
#[verifier::rlimit(60)]
proof fn lemma_decode_metadata(
    build_id: u64,
    index_name: Seq<u8>,
    table_name: Seq<u8>,
    indexed_column: u16,
    tie_break_mode: TieBreakMode,
)
    requires
        str16_ok(index_name),
        str16_ok(table_name),
    ensures
        ({
            let m = RecordM::Metadata { build_id, index_name, table_name, indexed_column, tie_break_mode };
            decode_spec(encode_record(m)) == Some(m)
        }),
{
    reveal(dec_metadata);
    let m = RecordM::Metadata { build_id, index_name, table_name, indexed_column, tie_break_mode };
    let b = encode_record(m);
    let b0 = bytes64(build_id as int);
    let e1 = enc_str16(index_name);
    let e2 = enc_str16(table_name);
    let h = bytes16(indexed_column as int);
    let t = seq![tie_byte(tie_break_mode)];
    let rest = b0 + e1 + e2 + h + t;
    assert(b =~= sql_prefix() + seq![88u8] + rest);
    lemma_head(b, 88u8, rest);
    lemma_split(b, 9, b0 + e1 + e2 + h, t);
    lemma_split(b, 9, b0 + e1 + e2, h);
    lemma_split(b, 9, b0 + e1, e2);
    lemma_split(b, 9, b0, e1);
    crate::bytes::lemma_bytes64(build_id as int);
    crate::bytes::lemma_bytes16(indexed_column as int);
    lemma_read_bytes(b, 9, build_id as int);
    lemma_p_str16(b, 17, index_name);
    lemma_p_str16(b, 17 + e1.len() as int, table_name);
    let r: int = 17 + e1.len() as int + e2.len() as int;
    lemma_read_bytes(b, r, indexed_column as int);
    assert(b[r + 2] == b.subrange(r + 2, r + 3)[0]);
}

#[verifier::spinoff_prover]
proof fn lemma_decode_entry(e: EntryM)
    requires
        str16_ok(e.index_name),
    ensures
        decode_spec(encode_record(RecordM::Entry { entry: e })) == Some(RecordM::Entry { entry: e }),
{
    reveal(dec_entry);
    let b = encode_record(RecordM::Entry { entry: e });
    lemma_head(b, 69u8, enc_entry(e));
    lemma_p_entry(b, 9, e);
}

#[verifier::spinoff_prover]
proof fn lemma_decode_row(table: Seq<u8>, values: Seq<ValueM>)
    requires
        str16_ok(table),
        values_ok(values),
    ensures
        decode_spec(encode_record(RecordM::Row { table, values })) == Some(RecordM::Row { table, values }),
{
    reveal(dec_row);
    let b = encode_record(RecordM::Row { table, values });
    lemma_head(b, 82u8, enc_row_body(table, values));
    lemma_p_row_body(b, 9, table, values);
}

#[verifier::spinoff_prover]
#[verifier::rlimit(60)]
proof fn lemma_decode_indexed_row(table: Seq<u8>, values: Seq<ValueM>, entries: Seq<EntryM>)
    requires
        str16_ok(table),
        values_ok(values),
        entries_ok(entries),
    ensures
        ({
            let m = RecordM::IndexedRow { table, values, entries };
            decode_spec(encode_record(m)) == Some(m)
        }),
{
    reveal(dec_indexed_row);
    let m = RecordM::IndexedRow { table, values, entries };
    let b = encode_record(m);
    let body = enc_row_body(table, values);
    let tail = bytes16(entries.len() as int % 65536) + enc_entries(entries);
    assert(b =~= sql_prefix() + seq![73u8] + (body + tail));
    lemma_head(b, 73u8, body + tail);
    lemma_split(b, 9, body, tail);
    lemma_p_row_body(b, 9, table, values);
    lemma_p_counted_entries(b, 9 + body.len() as int, entries);
}

#[verifier::spinoff_prover]
#[verifier::rlimit(60)]
proof fn lemma_decode_update_row(table: Seq<u8>, row_position: u64, values: Seq<ValueM>, entries: Seq<EntryM>)
    requires
        str16_ok(table),
        values_ok(values),
        entries_ok(entries),
    ensures
        ({
            let m = RecordM::UpdateRow { table, row_position, values, entries };
            decode_spec(encode_record(m)) == Some(m)
        }),
{
    reveal(dec_update_row);
    let m = RecordM::UpdateRow { table, row_position, values, entries };
    let b = encode_record(m);
    let b0 = bytes64(row_position as int);
    let body = enc_row_body(table, values);
    let tail = bytes16(entries.len() as int % 65536) + enc_entries(entries);
    assert(b =~= sql_prefix() + seq![85u8] + (b0 + body + tail));
    lemma_head(b, 85u8, b0 + body + tail);
    lemma_split(b, 9, b0 + body, tail);
    lemma_split(b, 9, b0, body);
    crate::bytes::lemma_bytes64(row_position as int);
    lemma_read_bytes(b, 9, row_position as int);
    lemma_p_row_body(b, 17, table, values);
    lemma_p_counted_entries(b, 17 + body.len() as int, entries);
}

#[verifier::spinoff_prover]
proof fn lemma_decode_delete_row(table: Seq<u8>, row_position: u64)
    requires
        str16_ok(table),
    ensures
        decode_spec(encode_record(RecordM::DeleteRow { table, row_position })) == Some(
            RecordM::DeleteRow { table, row_position },
        ),
{
    reveal(dec_delete_row);
    let b = encode_record(RecordM::DeleteRow { table, row_position });
    let et = enc_str16(table);
    let b0 = bytes64(row_position as int);
    assert(b =~= sql_prefix() + seq![68u8] + (et + b0));
    lemma_head(b, 68u8, et + b0);
    lemma_split(b, 9, et, b0);
    lemma_p_str16(b, 9, table);
    crate::bytes::lemma_bytes64(row_position as int);
    lemma_read_bytes(b, 9 + et.len() as int, row_position as int);
}

/// Decoding the bytes of a record gives the record back, for every record
/// whose strings and counts fit their length fields, whose strings are
/// UTF-8, and with at most one primary-key column.
pub proof fn lemma_decode_encode(r: RecordM)
    requires
        record_ok(r),
    ensures
        decode_spec(encode_record(r)) == Some(r),
{
    match r {
        RecordM::Catalog { table, columns } => lemma_decode_catalog(table, columns),
        RecordM::Row { table, values } => lemma_decode_row(table, values),
        RecordM::Entry { entry } => lemma_decode_entry(entry),
        RecordM::Metadata { build_id, index_name, table_name, indexed_column, tie_break_mode } =>
            lemma_decode_metadata(build_id, index_name, table_name, indexed_column, tie_break_mode),
        RecordM::IndexedRow { table, values, entries } => lemma_decode_indexed_row(table, values, entries),
        RecordM::UpdateRow { table, row_position, values, entries } => lemma_decode_update_row(
            table,
            row_position,
            values,
            entries,
        ),
        RecordM::DeleteRow { table, row_position } => lemma_decode_delete_row(table, row_position),
    }
}

// ----- what a decoded record holds -----
/// What decoding guarantees of a record: its names and texts fit their
/// length fields and are UTF-8, and its lists fit their counts.
pub open spec fn decoded_fits(r: RecordM) -> bool {
    match r {
        RecordM::Catalog { table, columns } => str16_ok(table) && columns.len() < 65536,
        RecordM::Row { table, values } => str16_ok(table) && values_ok(values),
        RecordM::Metadata { index_name, .. } => str16_ok(index_name),
        RecordM::IndexedRow { values, .. } => values_ok(values),
        RecordM::UpdateRow { values, .. } => values_ok(values),
        _ => true,
    }
}

proof fn lemma_le_bounds(b: Seq<u8>, pos: int)
    requires
        0 <= pos,
        pos + 4 <= b.len(),
    ensures
        0 <= le16(b, pos) < 65536,
        0 <= le32(b, pos) < 4294967296,
{
}

proof fn lemma_le16_bound(b: Seq<u8>, pos: int)
    requires
        0 <= pos,
        pos + 2 <= b.len(),
    ensures
        0 <= le16(b, pos) < 65536,
{
}

proof fn lemma_parsed_str16(b: Seq<u8>, pos: int)
    ensures
        p_str16(b, pos) matches Some((s, q)) ==> str16_ok(s) && pos < q,
{
    if 0 <= pos && pos + 2 <= b.len() {
        lemma_le16_bound(b, pos);
    }
}

proof fn lemma_parsed_value(b: Seq<u8>, pos: int)
    ensures
        p_value(b, pos) matches Some((v, q)) ==> value_ok(v) && pos < q,
{
    if 0 <= pos < b.len() && pos + 5 <= b.len() {
        lemma_le_bounds(b, pos + 1);
    }
}

proof fn lemma_parsed_values(b: Seq<u8>, pos: int, n: nat)
    ensures
        p_values(b, pos, n) matches Some((vs, q)) ==> vs.len() == n && forall|i: int|
            0 <= i < vs.len() ==> value_ok(#[trigger] vs[i]),
    decreases n,
{
    if n > 0 {
        lemma_parsed_values(b, pos, (n - 1) as nat);
        if let Some((vs, q)) = p_values(b, pos, (n - 1) as nat) {
            lemma_parsed_value(b, q);
            if let Some((v, r)) = p_value(b, q) {
                assert forall|i: int| 0 <= i < vs.push(v).len() implies value_ok(#[trigger] vs.push(v)[i]) by {
                    if i < vs.len() {
                        assert(vs.push(v)[i] == vs[i]);
                    }
                }
            }
        }
    }
}

proof fn lemma_parsed_row_body(b: Seq<u8>, pos: int)
    ensures
        p_row_body(b, pos) matches Some((t, vs, q)) ==> str16_ok(t) && values_ok(vs),
{
    reveal(p_row_body);
    lemma_parsed_str16(b, pos);
    if let Some((table, q)) = p_str16(b, pos) {
        if q + 2 <= b.len() {
            lemma_le16_bound(b, q);
            lemma_parsed_values(b, q + 2, le16(b, q) as nat);
        }
    }
}

proof fn lemma_parsed_columns(b: Seq<u8>, pos: int, n: nat)
    ensures
        p_columns(b, pos, n) matches Some((cs, q)) ==> cs.len() == n,
    decreases n,
{
    if n > 0 {
        lemma_parsed_columns(b, pos, (n - 1) as nat);
    }
}

/// A decoded record's names and texts fit their length fields and are
/// UTF-8, and its lists fit their counts.
pub proof fn lemma_decoded_fits(b: Seq<u8>)
    ensures
        decode_spec(b) matches Some(r) ==> decoded_fits(r),
{
    reveal(dec_catalog);
    reveal(dec_row);
    reveal(dec_metadata);
    reveal(dec_indexed_row);
    reveal(dec_update_row);
    reveal(dec_entry);
    reveal(dec_delete_row);
    lemma_parsed_str16(b, 9);
    lemma_parsed_str16(b, 17);
    lemma_parsed_row_body(b, 9);
    lemma_parsed_row_body(b, 17);
    if let Some((table, q)) = p_str16(b, 9) {
        if q + 2 <= b.len() {
            lemma_le16_bound(b, q);
            lemma_parsed_columns(b, q + 2, le16(b, q) as nat);
        }
    }
    if b.len() >= 9 && b.subrange(0, 8) == sql_prefix() {
        let kind = b[8];
        if kind == 67u8 {
            assert(decode_spec(b) == dec_catalog(b));
            assert(decode_spec(b) matches Some(r) ==> decoded_fits(r));
        } else if kind == 82u8 {
            assert(decode_spec(b) == dec_row(b));
            assert(decode_spec(b) matches Some(r) ==> decoded_fits(r));
        } else if kind == 88u8 {
            assert(decode_spec(b) == dec_metadata(b));
            assert(decode_spec(b) matches Some(r) ==> decoded_fits(r));
        } else if kind == 73u8 {
            assert(decode_spec(b) == dec_indexed_row(b));
            assert(decode_spec(b) matches Some(r) ==> decoded_fits(r));
            if let Some((t, vs, r)) = p_row_body(b, 9) {
                assert(values_ok(vs));
            }
        } else if kind == 85u8 {
            assert(decode_spec(b) == dec_update_row(b));
            assert(decode_spec(b) matches Some(r) ==> decoded_fits(r));
        }
    }
}

} // verus!
