//! Parsing SQL text into statements: splitting at `;` outside quoted text,
//! then one grammar per statement kind, each a chain of lexical steps.
use crate::bytes::copy_range;
use crate::lexer::{
    close_paren, find_close_paren, find_quote, ident_at, int_at, keyword_at, kw_text, lemma_close_paren,
    lemma_quote, quote_at_or_after, skip_ws, sp_char, sp_ident, sp_int, sp_keyword, sp_req_space,
    sp_space, space_at, split_words, toggled, trim, trim_copy, words, Keyword,
};
use crate::record::{Column, ColumnM, ColumnType, Value, ValueM, columns_view, values_view};
use crate::sql::{SqlError, SqlErrorM};
use crate::text::{is_output_safe_text, lower, output_safe, parse_i64, parse_int, valid_identifier};
use vstd::prelude::*;

verus! {

/// A step of a statement's grammar that captures nothing.
#[derive(Debug, Clone, Copy, PartialEq, Eq, Structural)]
pub enum Tok {
    Kw(Keyword),
    Space,
    ReqSpace,
    Ch(u8),
    End,
}

/// One step from `i`: the position after it.
pub open spec fn step(s: Seq<u8>, i: int, t: Tok) -> Option<int> {
    match t {
        Tok::Kw(k) => sp_keyword(s, i, k),
        Tok::Space => Some(sp_space(s, i)),
        Tok::ReqSpace => sp_req_space(s, i),
        Tok::Ch(c) => sp_char(s, i, c),
        Tok::End => if i == s.len() {
            Some(i)
        } else {
            None
        },
    }
}

/// A run of steps from `i`: the position after the last.
pub open spec fn run(s: Seq<u8>, i: int, ts: Seq<Tok>) -> Option<int>
    decreases ts.len(),
{
    if ts.len() == 0 {
        Some(i)
    } else {
        match step(s, i, ts[0]) {
            None => None,
            Some(j) => run(s, j, ts.subrange(1, ts.len() as int)),
        }
    }
}

proof fn lemma_step(s: Seq<u8>, i: int, t: Tok)
    requires
        0 <= i <= s.len(),
    ensures
        step(s, i, t) matches Some(j) ==> i <= j <= s.len(),
{
    crate::lexer::lemma_sp_space(s, i);
}

proof fn lemma_run(s: Seq<u8>, i: int, ts: Seq<Tok>)
    requires
        0 <= i <= s.len(),
    ensures
        run(s, i, ts) matches Some(j) ==> i <= j <= s.len(),
    decreases ts.len(),
{
    if ts.len() > 0 {
        lemma_step(s, i, ts[0]);
        if let Some(j) = step(s, i, ts[0]) {
            lemma_run(s, j, ts.subrange(1, ts.len() as int));
        }
    }
}

/// Runs the steps `ts` from `i`.
#[verifier::spinoff_prover]
pub fn run_tokens(s: &[u8], i: usize, ts: &[Tok]) -> (r: Option<usize>)
    requires
        i <= s@.len(),
    ensures
        r == match run(s@, i as int, ts@) {
            Some(j) => Some(j as usize),
            None => None::<usize>,
        },
        r matches Some(j) ==> i <= j <= s@.len(),
        run(s@, i as int, ts@) matches Some(j) ==> i <= j <= s.len(),
{
    proof {
        lemma_run(s@, i as int, ts@);
    }
    let mut k: usize = 0;
    let mut pos = i;
    let n = s.len();
    assert(ts@.subrange(0, ts@.len() as int) =~= ts@);
    while k < ts.len()
        invariant
            n == s@.len(),
            k <= ts@.len(),
            i <= pos <= s@.len(),
            run(s@, i as int, ts@) == run(s@, pos as int, ts@.subrange(k as int, ts@.len() as int)),
        decreases ts@.len() - k,
    {
        let ghost rest = ts@.subrange(k as int, ts@.len() as int);
        assert(rest.subrange(1, rest.len() as int) =~= ts@.subrange(k + 1, ts@.len() as int));
        let next = match ts[k] {
            Tok::Kw(kw) => keyword_at(s, pos, kw),
            Tok::Space => Some(space_at(s, pos)),
            Tok::ReqSpace => {
                let e = space_at(s, pos);
                if e > pos {
                    Some(e)
                } else {
                    None
                }
            },
            Tok::Ch(c) => {
                if pos < s.len() && s[pos] == c {
                    Some(pos + 1)
                } else {
                    None
                }
            },
            Tok::End => {
                if pos == s.len() {
                    Some(pos)
                } else {
                    None
                }
            },
        };
        proof {
            assert(rest[0] == ts@[k as int]);
            lemma_step(s@, pos as int, ts@[k as int]);
            assert(next == match step(s@, pos as int, ts@[k as int]) {
                Some(j) => Some(j as usize),
                None => None::<usize>,
            });
        }
        match next {
            None => {
                return None;
            },
            Some(e) => {
                proof {
                    assert(step(s@, pos as int, rest[0]) == Some(e as int));
                    assert(run(s@, pos as int, rest) == run(s@, e as int, rest.subrange(1, rest.len() as int)));
                }
                pos = e;
            },
        }
        k = k + 1;
    }
    proof {
        lemma_run(s@, i as int, ts@);
    }
    Some(pos)
}

/// A quoted text with no `|`, line break or quote inside, or
/// an integer literal that fits in an `i64`, once trimmed.
pub open spec fn value_spec(raw: Seq<u8>) -> Option<ValueM> {
    let v = trim(raw);
    if v.len() > 0 && v[0] == 39u8 {
        if v.len() >= 2 && v[v.len() - 1] == 39u8 && output_safe(v.subrange(1, v.len() - 1)) {
            Some(ValueM::Text(v.subrange(1, v.len() - 1)))
        } else {
            None
        }
    } else {
        match parse_int(v) {
            Some(n) => Some(ValueM::Int(n)),
            None => None,
        }
    }
}

/// Parses one value literal.
pub fn parse_value(raw: &[u8]) -> (r: Option<Value>)
    ensures
        match value_spec(raw@) {
            Some(m) => r matches Some(v) && v@ == m,
            None => r is None,
        },
{
    let v = trim_copy(raw);
    let n = v.len();
    if n > 0 && v[0] == 39u8 {
        if n >= 2 && v[n - 1] == 39u8 {
            let inner = copy_range(v.as_slice(), 1, n - 1);
            if is_output_safe_text(inner.as_slice()) {
                return Some(Value::Text(inner));
            }
        }
        return None;
    }
    match parse_i64(v.as_slice()) {
        Some(x) => Some(Value::Int(x)),
        None => None,
    }
}

/// A value literal at `i`: quoted text up to the next quote, or an integer.
pub open spec fn sp_value(s: Seq<u8>, i: int) -> Option<(ValueM, int)> {
    if 0 <= i < s.len() && s[i] == 39u8 {
        match quote_at_or_after(s, i + 1) {
            None => None,
            Some(q) => match value_spec(s.subrange(i, q + 1)) {
                Some(v) => Some((v, q + 1)),
                None => None,
            },
        }
    } else {
        match sp_int(s, i) {
            None => None,
            Some((_, e)) => match value_spec(s.subrange(i, e)) {
                Some(v) => Some((v, e)),
                None => None,
            },
        }
    }
}

#[verifier::spinoff_prover]
fn value_at(s: &[u8], i: usize) -> (r: Option<(Value, usize)>)
    requires
        i <= s@.len(),
    ensures
        match sp_value(s@, i as int) {
            Some((m, e)) => r matches Some((v, f)) && v@ == m && f == e && e <= s@.len(),
            None => r is None,
        },
{
    let n = s.len();
    if i < n && s[i] == 39u8 {
        proof {
            lemma_quote(s@, i + 1);
        }
        let q = match find_quote(s, i + 1) {
            Some(q) => q,
            None => {
                return None;
            },
        };
        let raw = copy_range(s, i, q + 1);
        match parse_value(raw.as_slice()) {
            Some(v) => Some((v, q + 1)),
            None => None,
        }
    } else {
        let e = match int_at(s, i) {
            Some((_, e)) => e,
            None => {
                return None;
            },
        };
        let raw = copy_range(s, i, e);
        match parse_value(raw.as_slice()) {
            Some(v) => Some((v, e)),
            None => None,
        }
    }
}

/// The comma-separated parts of `s` from `start`, scanning from `i`.
pub open spec fn comma_parts(s: Seq<u8>, start: int, i: int) -> Seq<Seq<u8>>
    decreases s.len() - i,
{
    if i < 0 || i >= s.len() {
        seq![s.subrange(start, s.len() as int)]
    } else if s[i] == 44u8 {
        seq![s.subrange(start, i)] + comma_parts(s, i + 1, i + 1)
    } else {
        comma_parts(s, start, i + 1)
    }
}

/// The trimmed parts between commas, none of them empty.
pub open spec fn comma_list(s: Seq<u8>) -> Option<Seq<Seq<u8>>> {
    let items = comma_parts(s, 0, 0).map_values(|p: Seq<u8>| trim(p));
    if exists|k: int| 0 <= k < items.len() && items[k].len() == 0 {
        None
    } else {
        Some(items)
    }
}

/// The comma-separated values of `s` from `start`, scanning from `i`, with
/// commas inside quoted text kept: `None` if a part is empty or a quote is
/// left open.
pub open spec fn value_parts(s: Seq<u8>, start: int, i: int, in_text: bool) -> Option<Seq<Seq<u8>>>
    decreases s.len() - i,
{
    if i < 0 || i >= s.len() {
        if in_text || trim(s.subrange(start, s.len() as int)).len() == 0 {
            None
        } else {
            Some(seq![trim(s.subrange(start, s.len() as int))])
        }
    } else {
        let t = toggled(s, i, in_text);
        if s[i] == 44u8 && !t {
            let item = trim(s.subrange(start, i));
            if item.len() == 0 {
                None
            } else {
                match value_parts(s, i + 1, i + 1, t) {
                    None => None,
                    Some(rest) => Some(seq![item] + rest),
                }
            }
        } else {
            value_parts(s, start, i + 1, t)
        }
    }
}

proof fn lemma_comma_parts(s: Seq<u8>, start: int, i: int)
    requires
        0 <= start <= i <= s.len(),
    ensures
        comma_parts(s, start, i).len() >= 1,
    decreases s.len() - i,
{
    if i < s.len() {
        if s[i] == 44u8 {
            lemma_comma_parts(s, i + 1, i + 1);
        } else {
            lemma_comma_parts(s, start, i + 1);
        }
    }
}

/// Splits at every comma and trims the parts.
fn split_comma_list(s: &[u8]) -> (r: Option<Vec<Vec<u8>>>)
    ensures
        match comma_list(s@) {
            Some(items) => r matches Some(v) && v@.map_values(|x: Vec<u8>| x@) == items,
            None => r is None,
        },
{
    let mut out: Vec<Vec<u8>> = Vec::new();
    let mut start: usize = 0;
    let mut i: usize = 0;
    let ghost all = comma_parts(s@, 0, 0).map_values(|p: Seq<u8>| trim(p));
    while i < s.len()
        invariant
            start <= i <= s@.len(),
            all == comma_parts(s@, 0, 0).map_values(|p: Seq<u8>| trim(p)),
            all == out@.map_values(|x: Vec<u8>| x@) + comma_parts(s@, start as int, i as int).map_values(
                |p: Seq<u8>| trim(p),
            ),
            forall|k: int| 0 <= k < out@.len() ==> out@[k]@.len() > 0,
        decreases s@.len() - i,
    {
        if s[i] == 44u8 {
            let part = copy_range(s, start, i);
            let item = trim_copy(part.as_slice());
            if item.len() == 0 {
                proof {
                    let k = out@.len() as int;
                    assert(comma_parts(s@, start as int, i as int) == seq![s@.subrange(start as int, i as int)]
                        + comma_parts(s@, i + 1, i + 1));
                    assert(all[k] == trim(s@.subrange(start as int, i as int)));
                }
                return None;
            }
            let ghost before = out@;
            out.push(item);
            proof {
                assert(comma_parts(s@, start as int, i as int) == seq![s@.subrange(start as int, i as int)]
                    + comma_parts(s@, i + 1, i + 1));
                assert(out@.map_values(|x: Vec<u8>| x@) =~= before.map_values(|x: Vec<u8>| x@).push(
                    trim(s@.subrange(start as int, i as int)),
                ));
                assert(all =~= out@.map_values(|x: Vec<u8>| x@) + comma_parts(s@, i + 1, i + 1).map_values(
                    |p: Seq<u8>| trim(p),
                ));
            }
            start = i + 1;
        } else {
            assert(comma_parts(s@, start as int, i as int) == comma_parts(s@, start as int, i + 1));
        }
        i = i + 1;
    }
    let part = copy_range(s, start, s.len());
    let item = trim_copy(part.as_slice());
    proof {
        assert(comma_parts(s@, start as int, i as int) == seq![s@.subrange(start as int, s@.len() as int)]);
    }
    if item.len() == 0 {
        proof {
            assert(all[out@.len() as int].len() == 0);
        }
        return None;
    }
    let ghost before = out@;
    out.push(item);
    proof {
        assert(out@.map_values(|x: Vec<u8>| x@) =~= all);
        assert forall|k: int| 0 <= k < all.len() implies all[k].len() != 0 by {
            assert(all[k] == out@[k]@);
        }
    }
    Some(out)
}

/// Splits a value list at the commas outside quoted text.
fn split_value_list(s: &[u8]) -> (r: Option<Vec<Vec<u8>>>)
    ensures
        match value_parts(s@, 0, 0, false) {
            Some(items) => r matches Some(v) && v@.map_values(|x: Vec<u8>| x@) == items,
            None => r is None,
        },
{
    let mut out: Vec<Vec<u8>> = Vec::new();
    let mut start: usize = 0;
    let mut i: usize = 0;
    let mut in_text = false;
    while i < s.len()
        invariant
            start <= i <= s@.len(),
            value_parts(s@, 0, 0, false) == match value_parts(s@, start as int, i as int, in_text) {
                Some(rest) => Some(out@.map_values(|x: Vec<u8>| x@) + rest),
                None => None::<Seq<Seq<u8>>>,
            },
        decreases s@.len() - i,
    {
        let t = if s[i] == 39u8 {
            !in_text
        } else {
            in_text
        };
        if s[i] == 44u8 && !t {
            let part = copy_range(s, start, i);
            let item = trim_copy(part.as_slice());
            if item.len() == 0 {
                return None;
            }
            let ghost before = out@;
            out.push(item);
            proof {
                assert(out@.map_values(|x: Vec<u8>| x@) =~= before.map_values(|x: Vec<u8>| x@).push(
                    trim(s@.subrange(start as int, i as int)),
                ));
                match value_parts(s@, i + 1, i + 1, t) {
                    Some(rest) => {
                        assert(before.map_values(|x: Vec<u8>| x@) + (seq![trim(s@.subrange(start as int, i as int))] + rest)
                            =~= out@.map_values(|x: Vec<u8>| x@) + rest);
                    },
                    None => {},
                }
            }
            start = i + 1;
        }
        in_text = t;
        i = i + 1;
    }
    if in_text {
        return None;
    }
    let part = copy_range(s, start, s.len());
    let item = trim_copy(part.as_slice());
    if item.len() == 0 {
        return None;
    }
    let ghost before = out@;
    out.push(item);
    proof {
        assert(out@.map_values(|x: Vec<u8>| x@) =~= before.map_values(|x: Vec<u8>| x@) + seq![item@]);
    }
    Some(out)
}

/// The condition of a `SELECT ... WHERE`.
#[derive(Debug, Clone, Copy, PartialEq, Eq, Structural)]
pub enum Predicate {
    Equality(i64),
    Range { low: i64, high: i64 },
}

/// A parsed statement. Names are as written; `raw` is the statement's text.
#[derive(Debug)]
pub enum Statement {
    CreateTable { table: Vec<u8>, columns: Vec<Column> },
    CreateIndex { index: Vec<u8>, table: Vec<u8>, column: Vec<u8> },
    Insert { table: Vec<u8>, values: Vec<Value> },
    Update { table: Vec<u8>, set_column: Vec<u8>, value: Value, where_column: Vec<u8>, key: i64 },
    Delete { table: Vec<u8>, where_column: Vec<u8>, key: i64 },
    SelectAll { table: Vec<u8> },
    SelectWhere { table: Vec<u8>, column: Vec<u8>, predicate: Predicate, raw: Vec<u8> },
}

/// The model of a statement.
pub enum StatementM {
    CreateTable { table: Seq<u8>, columns: Seq<ColumnM> },
    CreateIndex { index: Seq<u8>, table: Seq<u8>, column: Seq<u8> },
    Insert { table: Seq<u8>, values: Seq<ValueM> },
    Update { table: Seq<u8>, set_column: Seq<u8>, value: ValueM, where_column: Seq<u8>, key: i64 },
    Delete { table: Seq<u8>, where_column: Seq<u8>, key: i64 },
    SelectAll { table: Seq<u8> },
    SelectWhere { table: Seq<u8>, column: Seq<u8>, predicate: Predicate, raw: Seq<u8> },
}

impl View for Statement {
    type V = StatementM;

    open spec fn view(&self) -> StatementM {
        match self {
            Statement::CreateTable { table, columns } => StatementM::CreateTable {
                table: table@,
                columns: columns_view(columns@),
            },
            Statement::CreateIndex { index, table, column } => StatementM::CreateIndex {
                index: index@,
                table: table@,
                column: column@,
            },
            Statement::Insert { table, values } => StatementM::Insert { table: table@, values: values_view(values@) },
            Statement::Update { table, set_column, value, where_column, key } => StatementM::Update {
                table: table@,
                set_column: set_column@,
                value: value@,
                where_column: where_column@,
                key: *key,
            },
            Statement::Delete { table, where_column, key } => StatementM::Delete {
                table: table@,
                where_column: where_column@,
                key: *key,
            },
            Statement::SelectAll { table } => StatementM::SelectAll { table: table@ },
            Statement::SelectWhere { table, column, predicate, raw } => StatementM::SelectWhere {
                table: table@,
                column: column@,
                predicate: *predicate,
                raw: raw@,
            },
        }
    }
}

/// `CREATE INDEX name ON table (column)`.
pub open spec fn create_index_spec(b: Seq<u8>) -> Option<StatementM> {
    match run(b, 0, seq![Tok::Kw(Keyword::Create), Tok::ReqSpace, Tok::Kw(Keyword::Index), Tok::ReqSpace]) {
        None => None,
        Some(i0) => match sp_ident(b, i0) {
            None => None,
            Some(i1) => match run(b, i1, seq![Tok::ReqSpace, Tok::Kw(Keyword::On), Tok::ReqSpace]) {
                None => None,
                Some(i2) => match sp_ident(b, i2) {
                    None => None,
                    Some(i3) => match run(b, i3, seq![Tok::Space, Tok::Ch(40u8), Tok::Space]) {
                        None => None,
                        Some(i4) => match sp_ident(b, i4) {
                            None => None,
                            Some(i5) => match run(b, i5, seq![Tok::Space, Tok::Ch(41u8), Tok::Space, Tok::End]) {
                                None => None,
                                Some(_) => Some(
                                    StatementM::CreateIndex {
                                        index: b.subrange(i0, i1),
                                        table: b.subrange(i2, i3),
                                        column: b.subrange(i4, i5),
                                    },
                                ),
                            },
                        },
                    },
                },
            },
        },
    }
}

/// An identifier at `i` of `b`, copied, and the position after it.
fn ident_copy(b: &[u8], i: usize) -> (r: Option<(Vec<u8>, usize)>)
    requires
        i <= b@.len(),
    ensures
        match sp_ident(b@, i as int) {
            Some(e) => r matches Some((v, f)) && v@ == b@.subrange(i as int, e) && f == e && e <= b.len(),
            None => r is None,
        },
{
    match ident_at(b, i) {
        Some(e) => Some((copy_range(b, i, e), e)),
        None => None,
    }
}

fn parse_create_index(b: &[u8]) -> (r: Option<Statement>)
    ensures
        match create_index_spec(b@) {
            Some(m) => r matches Some(st) && st@ == m,
            None => r is None,
        },
{
    let t0 = vec![Tok::Kw(Keyword::Create), Tok::ReqSpace, Tok::Kw(Keyword::Index), Tok::ReqSpace];
    assert(t0@ =~= seq![Tok::Kw(Keyword::Create), Tok::ReqSpace, Tok::Kw(Keyword::Index), Tok::ReqSpace]);
    let i0 = run_tokens(b, 0, t0.as_slice())?;
    let (index, i1) = ident_copy(b, i0)?;
    let t1 = vec![Tok::ReqSpace, Tok::Kw(Keyword::On), Tok::ReqSpace];
    assert(t1@ =~= seq![Tok::ReqSpace, Tok::Kw(Keyword::On), Tok::ReqSpace]);
    let i2 = run_tokens(b, i1, t1.as_slice())?;
    let (table, i3) = ident_copy(b, i2)?;
    let t2 = vec![Tok::Space, Tok::Ch(40u8), Tok::Space];
    assert(t2@ =~= seq![Tok::Space, Tok::Ch(40u8), Tok::Space]);
    let i4 = run_tokens(b, i3, t2.as_slice())?;
    let (column, i5) = ident_copy(b, i4)?;
    let t3 = vec![Tok::Space, Tok::Ch(41u8), Tok::Space, Tok::End];
    assert(t3@ =~= seq![Tok::Space, Tok::Ch(41u8), Tok::Space, Tok::End]);
    run_tokens(b, i5, t3.as_slice())?;
    Some(Statement::CreateIndex { index, table, column })
}

/// A column type keyword at `i`: `INTEGER`, `INT` or `TEXT`.
pub open spec fn type_spec(b: Seq<u8>, i: int) -> Option<(ColumnType, int)> {
    match sp_keyword(b, i, Keyword::Integer) {
        Some(j) => Some((ColumnType::Int, j)),
        None => match sp_keyword(b, i, Keyword::Int) {
            Some(j) => Some((ColumnType::Int, j)),
            None => match sp_keyword(b, i, Keyword::Text) {
                Some(j) => Some((ColumnType::Text, j)),
                None => None,
            },
        },
    }
}

/// A column definition: `name TYPE`, optionally `PRIMARY KEY`.
pub open spec fn column_spec(b: Seq<u8>) -> Option<ColumnM> {
    match sp_ident(b, 0) {
        None => None,
        Some(e) => match sp_req_space(b, e) {
            None => None,
            Some(i) => match type_spec(b, i) {
                None => None,
                Some((t, j)) => {
                    let k = sp_space(b, j);
                    match sp_keyword(b, k, Keyword::Primary) {
                        Some(p) => match run(b, p, seq![Tok::ReqSpace, Tok::Kw(Keyword::Key), Tok::Space, Tok::End]) {
                            Some(_) => Some(ColumnM { name: b.subrange(0, e), column_type: t, is_primary_key: true }),
                            None => None,
                        },
                        None => if k == b.len() {
                            Some(ColumnM { name: b.subrange(0, e), column_type: t, is_primary_key: false })
                        } else {
                            None
                        },
                    }
                },
            },
        },
    }
}

/// Every item parsed as a column definition.
pub open spec fn columns_spec(items: Seq<Seq<u8>>) -> Option<Seq<ColumnM>>
    decreases items.len(),
{
    if items.len() == 0 {
        Some(Seq::empty())
    } else {
        match columns_spec(items.drop_last()) {
            None => None,
            Some(cs) => match column_spec(items.last()) {
                None => None,
                Some(c) => Some(cs.push(c)),
            },
        }
    }
}

/// Every item parsed as a value literal.
pub open spec fn values_spec(items: Seq<Seq<u8>>) -> Option<Seq<ValueM>>
    decreases items.len(),
{
    if items.len() == 0 {
        Some(Seq::empty())
    } else {
        match values_spec(items.drop_last()) {
            None => None,
            Some(vs) => match value_spec(items.last()) {
                None => None,
                Some(v) => Some(vs.push(v)),
            },
        }
    }
}

/// `CREATE TABLE name (column, ...)`.
pub open spec fn create_table_spec(b: Seq<u8>) -> Option<StatementM> {
    match run(b, 0, seq![Tok::Kw(Keyword::Create), Tok::ReqSpace, Tok::Kw(Keyword::Table), Tok::ReqSpace]) {
        None => None,
        Some(i0) => match sp_ident(b, i0) {
            None => None,
            Some(i1) => match run(b, i1, seq![Tok::Space, Tok::Ch(40u8)]) {
                None => None,
                Some(i2) => match close_paren(b, i2, false) {
                    None => None,
                    Some(q) => match run(b, q + 1, seq![Tok::Space, Tok::End]) {
                        None => None,
                        Some(_) => match comma_list(b.subrange(i2, q)) {
                            None => None,
                            Some(items) => match columns_spec(items) {
                                None => None,
                                Some(cs) => if cs.len() == 0 {
                                    None
                                } else {
                                    Some(StatementM::CreateTable { table: b.subrange(i0, i1), columns: cs })
                                },
                            },
                        },
                    },
                },
            },
        },
    }
}

/// `INSERT INTO name VALUES (value, ...)`.
pub open spec fn insert_spec(b: Seq<u8>) -> Option<StatementM> {
    match run(b, 0, seq![Tok::Kw(Keyword::Insert), Tok::ReqSpace, Tok::Kw(Keyword::Into), Tok::ReqSpace]) {
        None => None,
        Some(i0) => match sp_ident(b, i0) {
            None => None,
            Some(i1) => match run(
                b,
                i1,
                seq![Tok::ReqSpace, Tok::Kw(Keyword::Values), Tok::Space, Tok::Ch(40u8)],
            ) {
                None => None,
                Some(i2) => match close_paren(b, i2, false) {
                    None => None,
                    Some(q) => match run(b, q + 1, seq![Tok::Space, Tok::End]) {
                        None => None,
                        Some(_) => match value_parts(b.subrange(i2, q), 0, 0, false) {
                            None => None,
                            Some(items) => match values_spec(items) {
                                None => None,
                                Some(vs) => if vs.len() == 0 {
                                    None
                                } else {
                                    Some(StatementM::Insert { table: b.subrange(i0, i1), values: vs })
                                },
                            },
                        },
                    },
                },
            },
        },
    }
}

/// `UPDATE name SET column = value WHERE column = integer`.
pub open spec fn update_spec(b: Seq<u8>) -> Option<StatementM> {
    match run(b, 0, seq![Tok::Kw(Keyword::Update), Tok::ReqSpace]) {
        None => None,
        Some(i0) => match sp_ident(b, i0) {
            None => None,
            Some(i1) => match run(b, i1, seq![Tok::ReqSpace, Tok::Kw(Keyword::SetKeyword), Tok::ReqSpace]) {
                None => None,
                Some(i2) => match sp_ident(b, i2) {
                    None => None,
                    Some(i3) => match run(b, i3, seq![Tok::Space, Tok::Ch(61u8), Tok::Space]) {
                        None => None,
                        Some(i4) => match sp_value(b, i4) {
                            None => None,
                            Some((v, i5)) => match run(
                                b,
                                i5,
                                seq![Tok::ReqSpace, Tok::Kw(Keyword::Where), Tok::ReqSpace],
                            ) {
                                None => None,
                                Some(i6) => match sp_ident(b, i6) {
                                    None => None,
                                    Some(i7) => match run(b, i7, seq![Tok::Space, Tok::Ch(61u8), Tok::Space]) {
                                        None => None,
                                        Some(i8) => match sp_int(b, i8) {
                                            None => None,
                                            Some((key, i9)) => match run(b, i9, seq![Tok::Space, Tok::End]) {
                                                None => None,
                                                Some(_) => Some(
                                                    StatementM::Update {
                                                        table: b.subrange(i0, i1),
                                                        set_column: b.subrange(i2, i3),
                                                        value: v,
                                                        where_column: b.subrange(i6, i7),
                                                        key,
                                                    },
                                                ),
                                            },
                                        },
                                    },
                                },
                            },
                        },
                    },
                },
            },
        },
    }
}

/// `DELETE FROM name WHERE column = integer`.
pub open spec fn delete_spec(b: Seq<u8>) -> Option<StatementM> {
    match run(b, 0, seq![Tok::Kw(Keyword::Delete), Tok::ReqSpace, Tok::Kw(Keyword::From), Tok::ReqSpace]) {
        None => None,
        Some(i0) => match sp_ident(b, i0) {
            None => None,
            Some(i1) => match run(b, i1, seq![Tok::ReqSpace, Tok::Kw(Keyword::Where), Tok::ReqSpace]) {
                None => None,
                Some(i2) => match sp_ident(b, i2) {
                    None => None,
                    Some(i3) => match run(b, i3, seq![Tok::Space, Tok::Ch(61u8), Tok::Space]) {
                        None => None,
                        Some(i4) => match sp_int(b, i4) {
                            None => None,
                            Some((key, i5)) => match run(b, i5, seq![Tok::Space, Tok::End]) {
                                None => None,
                                Some(_) => Some(
                                    StatementM::Delete {
                                        table: b.subrange(i0, i1),
                                        where_column: b.subrange(i2, i3),
                                        key,
                                    },
                                ),
                            },
                        },
                    },
                },
            },
        },
    }
}

/// The `WHERE` part of a select after its column: `BETWEEN low AND high`
/// or `= key`.
pub open spec fn predicate_spec(b: Seq<u8>, i: int) -> Option<Predicate> {
    match sp_keyword(b, i, Keyword::Between) {
        Some(j) => match run(b, j, seq![Tok::ReqSpace]) {
            None => None,
            Some(j1) => match sp_int(b, j1) {
                None => None,
                Some((low, j2)) => match run(b, j2, seq![Tok::ReqSpace, Tok::Kw(Keyword::And), Tok::ReqSpace]) {
                    None => None,
                    Some(j3) => match sp_int(b, j3) {
                        None => None,
                        Some((high, j4)) => match run(b, j4, seq![Tok::Space, Tok::End]) {
                            None => None,
                            Some(_) => Some(Predicate::Range { low, high }),
                        },
                    },
                },
            },
        },
        None => match run(b, i, seq![Tok::Ch(61u8), Tok::Space]) {
            None => None,
            Some(j1) => match sp_int(b, j1) {
                None => None,
                Some((key, j2)) => match run(b, j2, seq![Tok::Space, Tok::End]) {
                    None => None,
                    Some(_) => Some(Predicate::Equality(key)),
                },
            },
        },
    }
}

/// `SELECT * FROM name`, optionally with `WHERE column` and a predicate.
pub open spec fn select_spec(b: Seq<u8>, raw: Seq<u8>) -> Option<StatementM> {
    match run(
        b,
        0,
        seq![Tok::Kw(Keyword::Select), Tok::ReqSpace, Tok::Ch(42u8), Tok::ReqSpace, Tok::Kw(Keyword::From), Tok::ReqSpace],
    ) {
        None => None,
        Some(i0) => match sp_ident(b, i0) {
            None => None,
            Some(i1) => {
                let i2 = sp_space(b, i1);
                match sp_keyword(b, i2, Keyword::Where) {
                    Some(i3) => match sp_req_space(b, i3) {
                        None => None,
                        Some(i4) => match sp_ident(b, i4) {
                            None => None,
                            Some(i5) => match predicate_spec(b, sp_space(b, i5)) {
                                None => None,
                                Some(p) => Some(
                                    StatementM::SelectWhere {
                                        table: b.subrange(i0, i1),
                                        column: b.subrange(i4, i5),
                                        predicate: p,
                                        raw,
                                    },
                                ),
                            },
                        },
                    },
                    None => if i2 == b.len() {
                        Some(StatementM::SelectAll { table: b.subrange(i0, i1) })
                    } else {
                        None
                    },
                }
            },
        },
    }
}

/// Runs a list of steps given by value.
fn run_steps(b: &[u8], i: usize, ts: Vec<Tok>, Ghost(expect): Ghost<Seq<Tok>>) -> (r: Option<usize>)
    requires
        i <= b@.len(),
        ts@ == expect,
    ensures
        r == match run(b@, i as int, expect) {
            Some(j) => Some(j as usize),
            None => None::<usize>,
        },
        r matches Some(j) ==> i <= j <= b@.len(),
        run(b@, i as int, expect) matches Some(j) ==> i <= j <= b.len(),
{
    run_tokens(b, i, ts.as_slice())
}

fn parse_column(b: &[u8]) -> (r: Option<Column>)
    ensures
        match column_spec(b@) {
            Some(m) => r matches Some(c) && c@ == m,
            None => r is None,
        },
{
    let (name, e) = ident_copy(b, 0)?;
    let i = space_at(b, e);
    if i == e {
        return None;
    }
    let (t, j) = match keyword_at(b, i, Keyword::Integer) {
        Some(j) => (ColumnType::Int, j),
        None => match keyword_at(b, i, Keyword::Int) {
            Some(j) => (ColumnType::Int, j),
            None => match keyword_at(b, i, Keyword::Text) {
                Some(j) => (ColumnType::Text, j),
                None => {
                    return None;
                },
            },
        },
    };
    let k = space_at(b, j);
    match keyword_at(b, k, Keyword::Primary) {
        Some(p) => {
            let ghost ts = seq![Tok::ReqSpace, Tok::Kw(Keyword::Key), Tok::Space, Tok::End];
            let v = vec![Tok::ReqSpace, Tok::Kw(Keyword::Key), Tok::Space, Tok::End];
            assert(v@ =~= ts);
            run_steps(b, p, v, Ghost(ts))?;
            Some(Column { name, column_type: t, is_primary_key: true })
        },
        None => {
            if k == b.len() {
                Some(Column { name, column_type: t, is_primary_key: false })
            } else {
                None
            }
        },
    }
}

fn parse_columns(items: &Vec<Vec<u8>>) -> (r: Option<Vec<Column>>)
    ensures
        match columns_spec(items@.map_values(|x: Vec<u8>| x@)) {
            Some(m) => r matches Some(cs) && columns_view(cs@) == m,
            None => r is None,
        },
{
    let ghost all = items@.map_values(|x: Vec<u8>| x@);
    let mut out: Vec<Column> = Vec::new();
    let mut k: usize = 0;
    assert(all.subrange(0, 0).len() == 0);
    assert(columns_view(out@) =~= Seq::<ColumnM>::empty());
    while k < items.len()
        invariant
            k <= items@.len(),
            all == items@.map_values(|x: Vec<u8>| x@),
            columns_spec(all.subrange(0, k as int)) == Some(columns_view(out@)),
        decreases items@.len() - k,
    {
        assert(all.subrange(0, k + 1).drop_last() =~= all.subrange(0, k as int));
        assert(all.subrange(0, k + 1).last() == items@[k as int]@);
        let c = match parse_column(items[k].as_slice()) {
            Some(c) => c,
            None => {
                proof {
                    lemma_columns_none_after(all, k as int + 1);
                    assert(all.subrange(0, all.len() as int) =~= all);
                }
                return None;
            },
        };
        let ghost before = out@;
        out.push(c);
        assert(columns_view(out@) =~= columns_view(before).push(c@));
        k = k + 1;
    }
    assert(all.subrange(0, all.len() as int) =~= all);
    Some(out)
}

proof fn lemma_columns_none_after(all: Seq<Seq<u8>>, k: int)
    requires
        0 <= k <= all.len(),
        columns_spec(all.subrange(0, k)) is None,
    ensures
        columns_spec(all) is None,
    decreases all.len() - k,
{
    if k < all.len() {
        assert(all.subrange(0, k + 1).drop_last() =~= all.subrange(0, k));
        lemma_columns_none_after(all, k + 1);
    } else {
        assert(all.subrange(0, k) =~= all);
    }
}

proof fn lemma_values_none_after(all: Seq<Seq<u8>>, k: int)
    requires
        0 <= k <= all.len(),
        values_spec(all.subrange(0, k)) is None,
    ensures
        values_spec(all) is None,
    decreases all.len() - k,
{
    if k < all.len() {
        assert(all.subrange(0, k + 1).drop_last() =~= all.subrange(0, k));
        lemma_values_none_after(all, k + 1);
    } else {
        assert(all.subrange(0, k) =~= all);
    }
}

fn parse_values(items: &Vec<Vec<u8>>) -> (r: Option<Vec<Value>>)
    ensures
        match values_spec(items@.map_values(|x: Vec<u8>| x@)) {
            Some(m) => r matches Some(vs) && values_view(vs@) == m,
            None => r is None,
        },
{
    let ghost all = items@.map_values(|x: Vec<u8>| x@);
    let mut out: Vec<Value> = Vec::new();
    let mut k: usize = 0;
    assert(values_view(out@) =~= Seq::<ValueM>::empty());
    while k < items.len()
        invariant
            k <= items@.len(),
            all == items@.map_values(|x: Vec<u8>| x@),
            values_spec(all.subrange(0, k as int)) == Some(values_view(out@)),
        decreases items@.len() - k,
    {
        assert(all.subrange(0, k + 1).drop_last() =~= all.subrange(0, k as int));
        assert(all.subrange(0, k + 1).last() == items@[k as int]@);
        let v = match parse_value(items[k].as_slice()) {
            Some(v) => v,
            None => {
                proof {
                    lemma_values_none_after(all, k as int + 1);
                }
                return None;
            },
        };
        let ghost before = out@;
        out.push(v);
        assert(values_view(out@) =~= values_view(before).push(v@));
        k = k + 1;
    }
    assert(all.subrange(0, all.len() as int) =~= all);
    Some(out)
}

fn parse_create_table(b: &[u8]) -> (r: Option<Statement>)
    ensures
        match create_table_spec(b@) {
            Some(m) => r matches Some(st) && st@ == m,
            None => r is None,
        },
{
    let ghost t0 = seq![Tok::Kw(Keyword::Create), Tok::ReqSpace, Tok::Kw(Keyword::Table), Tok::ReqSpace];
    let v0 = vec![Tok::Kw(Keyword::Create), Tok::ReqSpace, Tok::Kw(Keyword::Table), Tok::ReqSpace];
    assert(v0@ =~= t0);
    let i0 = run_steps(b, 0, v0, Ghost(t0))?;
    let (table, i1) = ident_copy(b, i0)?;
    let ghost t1 = seq![Tok::Space, Tok::Ch(40u8)];
    let v1 = vec![Tok::Space, Tok::Ch(40u8)];
    assert(v1@ =~= t1);
    let i2 = run_steps(b, i1, v1, Ghost(t1))?;
    let q = find_close_paren(b, i2)?;
    let ghost t2 = seq![Tok::Space, Tok::End];
    let v2 = vec![Tok::Space, Tok::End];
    assert(v2@ =~= t2);
    run_steps(b, q + 1, v2, Ghost(t2))?;
    let body = copy_range(b, i2, q);
    let items = split_comma_list(body.as_slice())?;
    let columns = parse_columns(&items)?;
    if columns.len() == 0 {
        return None;
    }
    Some(Statement::CreateTable { table, columns })
}

fn parse_insert(b: &[u8]) -> (r: Option<Statement>)
    ensures
        match insert_spec(b@) {
            Some(m) => r matches Some(st) && st@ == m,
            None => r is None,
        },
{
    let ghost t0 = seq![Tok::Kw(Keyword::Insert), Tok::ReqSpace, Tok::Kw(Keyword::Into), Tok::ReqSpace];
    let v0 = vec![Tok::Kw(Keyword::Insert), Tok::ReqSpace, Tok::Kw(Keyword::Into), Tok::ReqSpace];
    assert(v0@ =~= t0);
    let i0 = run_steps(b, 0, v0, Ghost(t0))?;
    let (table, i1) = ident_copy(b, i0)?;
    let ghost t1 = seq![Tok::ReqSpace, Tok::Kw(Keyword::Values), Tok::Space, Tok::Ch(40u8)];
    let v1 = vec![Tok::ReqSpace, Tok::Kw(Keyword::Values), Tok::Space, Tok::Ch(40u8)];
    assert(v1@ =~= t1);
    let i2 = run_steps(b, i1, v1, Ghost(t1))?;
    let q = find_close_paren(b, i2)?;
    let ghost t2 = seq![Tok::Space, Tok::End];
    let v2 = vec![Tok::Space, Tok::End];
    assert(v2@ =~= t2);
    run_steps(b, q + 1, v2, Ghost(t2))?;
    let body = copy_range(b, i2, q);
    let items = split_value_list(body.as_slice())?;
    let values = parse_values(&items)?;
    if values.len() == 0 {
        return None;
    }
    Some(Statement::Insert { table, values })
}

fn parse_update(b: &[u8]) -> (r: Option<Statement>)
    ensures
        match update_spec(b@) {
            Some(m) => r matches Some(st) && st@ == m,
            None => r is None,
        },
{
    let ghost t0 = seq![Tok::Kw(Keyword::Update), Tok::ReqSpace];
    let v0 = vec![Tok::Kw(Keyword::Update), Tok::ReqSpace];
    assert(v0@ =~= t0);
    let i0 = run_steps(b, 0, v0, Ghost(t0))?;
    let (table, i1) = ident_copy(b, i0)?;
    let ghost t1 = seq![Tok::ReqSpace, Tok::Kw(Keyword::SetKeyword), Tok::ReqSpace];
    let v1 = vec![Tok::ReqSpace, Tok::Kw(Keyword::SetKeyword), Tok::ReqSpace];
    assert(v1@ =~= t1);
    let i2 = run_steps(b, i1, v1, Ghost(t1))?;
    let (set_column, i3) = ident_copy(b, i2)?;
    let ghost t2 = seq![Tok::Space, Tok::Ch(61u8), Tok::Space];
    let v2 = vec![Tok::Space, Tok::Ch(61u8), Tok::Space];
    assert(v2@ =~= t2);
    let i4 = run_steps(b, i3, v2, Ghost(t2))?;
    let (value, i5) = value_at(b, i4)?;
    let ghost t3 = seq![Tok::ReqSpace, Tok::Kw(Keyword::Where), Tok::ReqSpace];
    let v3 = vec![Tok::ReqSpace, Tok::Kw(Keyword::Where), Tok::ReqSpace];
    assert(v3@ =~= t3);
    let i6 = run_steps(b, i5, v3, Ghost(t3))?;
    let (where_column, i7) = ident_copy(b, i6)?;
    let v4 = vec![Tok::Space, Tok::Ch(61u8), Tok::Space];
    assert(v4@ =~= t2);
    let i8 = run_steps(b, i7, v4, Ghost(t2))?;
    let (key, i9) = int_at(b, i8)?;
    let ghost t5 = seq![Tok::Space, Tok::End];
    let v5 = vec![Tok::Space, Tok::End];
    assert(v5@ =~= t5);
    run_steps(b, i9, v5, Ghost(t5))?;
    Some(Statement::Update { table, set_column, value, where_column, key })
}

fn parse_delete(b: &[u8]) -> (r: Option<Statement>)
    ensures
        match delete_spec(b@) {
            Some(m) => r matches Some(st) && st@ == m,
            None => r is None,
        },
{
    let ghost t0 = seq![Tok::Kw(Keyword::Delete), Tok::ReqSpace, Tok::Kw(Keyword::From), Tok::ReqSpace];
    let v0 = vec![Tok::Kw(Keyword::Delete), Tok::ReqSpace, Tok::Kw(Keyword::From), Tok::ReqSpace];
    assert(v0@ =~= t0);
    let i0 = run_steps(b, 0, v0, Ghost(t0))?;
    let (table, i1) = ident_copy(b, i0)?;
    let ghost t1 = seq![Tok::ReqSpace, Tok::Kw(Keyword::Where), Tok::ReqSpace];
    let v1 = vec![Tok::ReqSpace, Tok::Kw(Keyword::Where), Tok::ReqSpace];
    assert(v1@ =~= t1);
    let i2 = run_steps(b, i1, v1, Ghost(t1))?;
    let (where_column, i3) = ident_copy(b, i2)?;
    let ghost t2 = seq![Tok::Space, Tok::Ch(61u8), Tok::Space];
    let v2 = vec![Tok::Space, Tok::Ch(61u8), Tok::Space];
    assert(v2@ =~= t2);
    let i4 = run_steps(b, i3, v2, Ghost(t2))?;
    let (key, i5) = int_at(b, i4)?;
    let ghost t3 = seq![Tok::Space, Tok::End];
    let v3 = vec![Tok::Space, Tok::End];
    assert(v3@ =~= t3);
    run_steps(b, i5, v3, Ghost(t3))?;
    Some(Statement::Delete { table, where_column, key })
}

fn parse_predicate(b: &[u8], i: usize) -> (r: Option<Predicate>)
    requires
        i <= b@.len(),
    ensures
        r == predicate_spec(b@, i as int),
{
    match keyword_at(b, i, Keyword::Between) {
        Some(j) => {
            let ghost t0 = seq![Tok::ReqSpace];
            let v0 = vec![Tok::ReqSpace];
            assert(v0@ =~= t0);
            let j1 = run_steps(b, j, v0, Ghost(t0))?;
            let (low, j2) = int_at(b, j1)?;
            let ghost t1 = seq![Tok::ReqSpace, Tok::Kw(Keyword::And), Tok::ReqSpace];
            let v1 = vec![Tok::ReqSpace, Tok::Kw(Keyword::And), Tok::ReqSpace];
            assert(v1@ =~= t1);
            let j3 = run_steps(b, j2, v1, Ghost(t1))?;
            let (high, j4) = int_at(b, j3)?;
            let ghost t2 = seq![Tok::Space, Tok::End];
            let v2 = vec![Tok::Space, Tok::End];
            assert(v2@ =~= t2);
            run_steps(b, j4, v2, Ghost(t2))?;
            Some(Predicate::Range { low, high })
        },
        None => {
            let ghost t0 = seq![Tok::Ch(61u8), Tok::Space];
            let v0 = vec![Tok::Ch(61u8), Tok::Space];
            assert(v0@ =~= t0);
            let j1 = run_steps(b, i, v0, Ghost(t0))?;
            let (key, j2) = int_at(b, j1)?;
            let ghost t2 = seq![Tok::Space, Tok::End];
            let v2 = vec![Tok::Space, Tok::End];
            assert(v2@ =~= t2);
            run_steps(b, j2, v2, Ghost(t2))?;
            Some(Predicate::Equality(key))
        },
    }
}

fn parse_select(b: &[u8], raw: &[u8]) -> (r: Option<Statement>)
    ensures
        match select_spec(b@, raw@) {
            Some(m) => r matches Some(st) && st@ == m,
            None => r is None,
        },
{
    let ghost t0 = seq![Tok::Kw(Keyword::Select), Tok::ReqSpace, Tok::Ch(42u8), Tok::ReqSpace, Tok::Kw(Keyword::From), Tok::ReqSpace];
    let v0 = vec![Tok::Kw(Keyword::Select), Tok::ReqSpace, Tok::Ch(42u8), Tok::ReqSpace, Tok::Kw(Keyword::From), Tok::ReqSpace];
    assert(v0@ =~= t0);
    let i0 = run_steps(b, 0, v0, Ghost(t0))?;
    let (table, i1) = ident_copy(b, i0)?;
    let i2 = space_at(b, i1);
    match keyword_at(b, i2, Keyword::Where) {
        Some(i3) => {
            let i4 = space_at(b, i3);
            if i4 == i3 {
                return None;
            }
            let (column, i5) = ident_copy(b, i4)?;
            let i6 = space_at(b, i5);
            let predicate = parse_predicate(b, i6)?;
            assert(raw@.subrange(0, raw@.len() as int) =~= raw@);
            Some(Statement::SelectWhere { table, column, predicate, raw: copy_range(raw, 0, raw.len()) })
        },
        None => {
            if i2 == b.len() {
                Some(Statement::SelectAll { table })
            } else {
                None
            }
        },
    }
}

/// `INSERT INTO name (`: an insert that names its columns.
pub open spec fn insert_with_columns(b: Seq<u8>) -> bool {
    match run(b, 0, seq![Tok::Kw(Keyword::Insert), Tok::ReqSpace, Tok::Kw(Keyword::Into), Tok::ReqSpace]) {
        None => false,
        Some(i) => match sp_ident(b, i) {
            None => false,
            Some(e) => {
                let j = sp_space(b, e);
                j < b.len() && b[j] == 40u8
            },
        },
    }
}

fn is_insert_with_column_list(b: &[u8]) -> (r: bool)
    ensures
        r == insert_with_columns(b@),
{
    let ghost t0 = seq![Tok::Kw(Keyword::Insert), Tok::ReqSpace, Tok::Kw(Keyword::Into), Tok::ReqSpace];
    let v0 = vec![Tok::Kw(Keyword::Insert), Tok::ReqSpace, Tok::Kw(Keyword::Into), Tok::ReqSpace];
    assert(v0@ =~= t0);
    let i = match run_steps(b, 0, v0, Ghost(t0)) {
        Some(i) => i,
        None => {
            return false;
        },
    };
    let e = match ident_at(b, i) {
        Some(e) => e,
        None => {
            return false;
        },
    };
    let j = space_at(b, e);
    j < b.len() && b[j] == 40u8
}

/// Whether two byte strings are equal ignoring ASCII letter case.
pub open spec fn same_word(a: Seq<u8>, b: Seq<u8>) -> bool {
    lower(a) == lower(b)
}

/// A select whose shape is wrong rather than unsupported: fewer than two
/// words, or `*` without `FROM` and a table name, or a fifth word that does
/// not start a `WHERE`, `ORDER` or `JOIN` clause.
pub open spec fn select_shape_malformed(b: Seq<u8>) -> bool {
    let t = words(b, 0);
    if t.len() < 2 {
        true
    } else if t[1] != seq![42u8] {
        false
    } else if t.len() < 4 {
        true
    } else if !same_word(t[2], kw_text(Keyword::From)) {
        true
    } else if !valid_identifier(t[3]) {
        true
    } else {
        t.len() > 4 && !(same_word(t[4], kw_text(Keyword::Where)) || same_word(t[4], kw_text(Keyword::Order))
            || same_word(t[4], kw_text(Keyword::Join)))
    }
}

fn word_is(w: &Vec<u8>, k: Keyword) -> (r: bool)
    ensures
        r == same_word(w@, kw_text(k)),
{
    let kw = crate::lexer::keyword_text(k);
    crate::text::eq_ignore_ascii_case(w.as_slice(), kw.as_slice())
}

fn is_malformed_select_shape(b: &[u8]) -> (r: bool)
    ensures
        r == select_shape_malformed(b@),
{
    let t = split_words(b);
    let ghost tv = t@.map_values(|w: Vec<u8>| w@);
    assert(tv == words(b@, 0));
    if t.len() < 2 {
        return true;
    }
    assert(tv[1] == t@[1]@);
    if !(t[1].len() == 1 && t[1][0] == 42u8) {
        assert(tv[1] != seq![42u8]) by {
            if tv[1] == seq![42u8] {
                assert(t@[1]@[0] == 42u8);
            }
        }
        return false;
    }
    assert(tv[1] =~= seq![42u8]);
    if t.len() < 4 {
        return true;
    }
    assert(tv[2] == t@[2]@);
    assert(tv[3] == t@[3]@);
    if !word_is(&t[2], Keyword::From) {
        return true;
    }
    if !crate::text::is_valid_identifier(t[3].as_slice()) {
        return true;
    }
    if t.len() > 4 {
        assert(tv[4] == t@[4]@);
        !(word_is(&t[4], Keyword::Where) || word_is(&t[4], Keyword::Order) || word_is(&t[4], Keyword::Join))
    } else {
        false
    }
}

/// Whether `b` starts with the keywords `ks`, separated by white space.
pub open spec fn starts_with_words(b: Seq<u8>, ks: Seq<Tok>) -> bool {
    run(b, 0, ks) is Some
}

/// The text of a statement without its `;`, trimmed.
pub open spec fn statement_body(raw: Seq<u8>) -> Seq<u8> {
    trim(raw.subrange(0, raw.len() - 1))
}

/// A statement ending in `;`: its kind is told by its first keywords; what
/// fails to parse is malformed or unsupported, by kind.
#[verifier::opaque]
pub open spec fn statement_spec(raw: Seq<u8>) -> Result<StatementM, SqlErrorM> {
    let b = statement_body(raw);
    if starts_with_words(b, seq![Tok::Kw(Keyword::Create), Tok::ReqSpace, Tok::Kw(Keyword::Index)]) {
        match create_index_spec(b) {
            Some(st) => Ok(st),
            None => Err(SqlErrorM::Malformed(raw)),
        }
    } else if starts_with_words(b, seq![Tok::Kw(Keyword::Create), Tok::ReqSpace, Tok::Kw(Keyword::Table)]) {
        match create_table_spec(b) {
            Some(st) => Ok(st),
            None => Err(SqlErrorM::Malformed(raw)),
        }
    } else if starts_with_words(b, seq![Tok::Kw(Keyword::Insert), Tok::ReqSpace, Tok::Kw(Keyword::Into)]) {
        match insert_spec(b) {
            Some(st) => Ok(st),
            None => if insert_with_columns(b) {
                Err(SqlErrorM::Unsupported(raw))
            } else {
                Err(SqlErrorM::Malformed(raw))
            },
        }
    } else if starts_with_words(b, seq![Tok::Kw(Keyword::Update)]) {
        match update_spec(b) {
            Some(st) => Ok(st),
            None => Err(SqlErrorM::Unsupported(raw)),
        }
    } else if starts_with_words(b, seq![Tok::Kw(Keyword::Delete), Tok::ReqSpace, Tok::Kw(Keyword::From)]) {
        match delete_spec(b) {
            Some(st) => Ok(st),
            None => Err(SqlErrorM::Unsupported(raw)),
        }
    } else if starts_with_words(b, seq![Tok::Kw(Keyword::Select)]) {
        match select_spec(b, raw) {
            Some(st) => Ok(st),
            None => if select_shape_malformed(b) {
                Err(SqlErrorM::Malformed(raw))
            } else {
                Err(SqlErrorM::Unsupported(raw))
            },
        }
    } else {
        Err(SqlErrorM::Unsupported(raw))
    }
}

fn starts_with_keywords(b: &[u8], v: Vec<Tok>, Ghost(ks): Ghost<Seq<Tok>>) -> (r: bool)
    requires
        v@ == ks,
    ensures
        r == starts_with_words(b@, ks),
{
    run_steps(b, 0, v, Ghost(ks)).is_some()
}

fn copy_all(b: &[u8]) -> (r: Vec<u8>)
    ensures
        r@ == b@,
{
    let r = copy_range(b, 0, b.len());
    assert(b@.subrange(0, b@.len() as int) =~= b@);
    r
}

/// Parses one statement that ends in `;`.
pub fn parse_statement(raw: &[u8]) -> (r: Result<Statement, SqlError>)
    requires
        raw@.len() > 0,
    ensures
        match statement_spec(raw@) {
            Ok(m) => r matches Ok(st) && st@ == m,
            Err(e) => r matches Err(x) && x@ == e,
        },
{
    proof {
        reveal(statement_spec);
    }
    let inner = copy_range(raw, 0, raw.len() - 1);
    let body = trim_copy(inner.as_slice());
    let b = body.as_slice();
    let ghost k0 = seq![Tok::Kw(Keyword::Create), Tok::ReqSpace, Tok::Kw(Keyword::Index)];
    let ghost k1 = seq![Tok::Kw(Keyword::Create), Tok::ReqSpace, Tok::Kw(Keyword::Table)];
    let ghost k2 = seq![Tok::Kw(Keyword::Insert), Tok::ReqSpace, Tok::Kw(Keyword::Into)];
    let ghost k3 = seq![Tok::Kw(Keyword::Update)];
    let ghost k4 = seq![Tok::Kw(Keyword::Delete), Tok::ReqSpace, Tok::Kw(Keyword::From)];
    let ghost k5 = seq![Tok::Kw(Keyword::Select)];
    let v0 = vec![Tok::Kw(Keyword::Create), Tok::ReqSpace, Tok::Kw(Keyword::Index)];
    assert(v0@ =~= k0);
    if starts_with_keywords(b, v0, Ghost(k0)) {
        return match parse_create_index(b) {
            Some(st) => Ok(st),
            None => Err(SqlError::Malformed(copy_all(raw))),
        };
    }
    let v1 = vec![Tok::Kw(Keyword::Create), Tok::ReqSpace, Tok::Kw(Keyword::Table)];
    assert(v1@ =~= k1);
    if starts_with_keywords(b, v1, Ghost(k1)) {
        return match parse_create_table(b) {
            Some(st) => Ok(st),
            None => Err(SqlError::Malformed(copy_all(raw))),
        };
    }
    let v2 = vec![Tok::Kw(Keyword::Insert), Tok::ReqSpace, Tok::Kw(Keyword::Into)];
    assert(v2@ =~= k2);
    if starts_with_keywords(b, v2, Ghost(k2)) {
        return match parse_insert(b) {
            Some(st) => Ok(st),
            None => if is_insert_with_column_list(b) {
                Err(SqlError::Unsupported(copy_all(raw)))
            } else {
                Err(SqlError::Malformed(copy_all(raw)))
            },
        };
    }
    let v3 = vec![Tok::Kw(Keyword::Update)];
    assert(v3@ =~= k3);
    if starts_with_keywords(b, v3, Ghost(k3)) {
        return match parse_update(b) {
            Some(st) => Ok(st),
            None => Err(SqlError::Unsupported(copy_all(raw))),
        };
    }
    let v4 = vec![Tok::Kw(Keyword::Delete), Tok::ReqSpace, Tok::Kw(Keyword::From)];
    assert(v4@ =~= k4);
    if starts_with_keywords(b, v4, Ghost(k4)) {
        return match parse_delete(b) {
            Some(st) => Ok(st),
            None => Err(SqlError::Unsupported(copy_all(raw))),
        };
    }
    let v5 = vec![Tok::Kw(Keyword::Select)];
    assert(v5@ =~= k5);
    if starts_with_keywords(b, v5, Ghost(k5)) {
        return match parse_select(b, raw) {
            Some(st) => Ok(st),
            None => if is_malformed_select_shape(b) {
                Err(SqlError::Malformed(copy_all(raw)))
            } else {
                Err(SqlError::Unsupported(copy_all(raw)))
            },
        };
    }
    Err(SqlError::Unsupported(copy_all(raw)))
}

/// The statements of `s` from `start`, scanning from `i`: each ends at a
/// `;` outside quoted text and is trimmed; `Err` holds the text of the
/// first empty statement, or the whole text trimmed when a quote is left
/// open or text follows the last `;`.
pub open spec fn statement_parts(s: Seq<u8>, start: int, i: int, in_text: bool) -> Result<Seq<Seq<u8>>, Seq<u8>>
    decreases s.len() - i,
{
    if i < 0 || i >= s.len() {
        if in_text || trim(s.subrange(start, s.len() as int)).len() > 0 {
            Err(trim(s))
        } else {
            Ok(Seq::empty())
        }
    } else {
        let t = toggled(s, i, in_text);
        if s[i] == 59u8 && !t {
            let raw = trim(s.subrange(start, i + 1));
            if raw.len() == 0 || raw == seq![59u8] {
                Err(raw)
            } else {
                match statement_parts(s, i + 1, i + 1, t) {
                    Err(e) => Err(e),
                    Ok(rest) => Ok(seq![raw] + rest),
                }
            }
        } else {
            statement_parts(s, start, i + 1, t)
        }
    }
}

/// At least one statement, each ending in `;`.
pub open spec fn split_spec(s: Seq<u8>) -> Result<Seq<Seq<u8>>, Seq<u8>> {
    match statement_parts(s, 0, 0, false) {
        Err(e) => Err(e),
        Ok(parts) => if parts.len() == 0 {
            Err(trim(s))
        } else {
            Ok(parts)
        },
    }
}

/// Every part of a split is a statement that ends in `;`.
pub open spec fn parts_end_with_semicolon(parts: Seq<Seq<u8>>) -> bool {
    forall|k: int| 0 <= k < parts.len() ==> (#[trigger] parts[k]).len() > 0 && parts[k].last() == 59u8
}

proof fn lemma_trim_keeps_semicolon(s: Seq<u8>)
    requires
        s.len() > 0,
        s.last() == 59u8,
    ensures
        trim(s).len() > 0,
        trim(s).last() == 59u8,
{
    let a = skip_ws(s, 0);
    crate::lexer::lemma_skip_ws(s, 0);
    lemma_skip_ws_before_semicolon(s, 0, s.len() - 1);
    let j = crate::lexer::skip_ws_back(s, a, s.len() as int);
    assert(crate::lexer::ws_before(s, s.len() as int) == 0);
    assert(j == s.len());
    assert(trim(s) == s.subrange(a, j));
    assert(trim(s)[trim(s).len() - 1] == s[s.len() - 1]);
}

/// Skipping white space stops at or before a `;`.
proof fn lemma_skip_ws_before_semicolon(s: Seq<u8>, i: int, p: int)
    requires
        0 <= i <= p < s.len(),
        s[p] == 59u8,
    ensures
        skip_ws(s, i) <= p,
    decreases p - i,
{
    if crate::lexer::ws_at(s, i) > 0 {
        lemma_skip_ws_before_semicolon(s, i + crate::lexer::ws_at(s, i), p);
    }
}

/// Splits SQL text into its statements, each ending in `;`.
pub fn split_raw_statements(s: &[u8]) -> (r: Result<Vec<Vec<u8>>, SqlError>)
    ensures
        match split_spec(s@) {
            Ok(parts) => r matches Ok(v) && v@.map_values(|x: Vec<u8>| x@) == parts,
            Err(t) => r matches Err(e) && e@ == SqlErrorM::Malformed(t),
        },
        split_spec(s@) matches Ok(parts) ==> parts_end_with_semicolon(parts),
{
    let mut out: Vec<Vec<u8>> = Vec::new();
    let mut start: usize = 0;
    let mut i: usize = 0;
    let mut in_text = false;
    while i < s.len()
        invariant
            start <= i <= s@.len(),
            statement_parts(s@, 0, 0, false) == match statement_parts(s@, start as int, i as int, in_text) {
                Ok(rest) => Ok(out@.map_values(|x: Vec<u8>| x@) + rest),
                Err(e) => Err::<Seq<Seq<u8>>, Seq<u8>>(e),
            },
            parts_end_with_semicolon(out@.map_values(|x: Vec<u8>| x@)),
        decreases s@.len() - i,
    {
        let t = if s[i] == 39u8 {
            !in_text
        } else {
            in_text
        };
        if s[i] == 59u8 && !t {
            let part = copy_range(s, start, i + 1);
            let raw = trim_copy(part.as_slice());
            if raw.len() == 0 || (raw.len() == 1 && raw[0] == 59u8) {
                proof {
                    if raw@.len() == 1 {
                        assert(raw@ =~= seq![59u8]);
                    }
                }
                return Err(SqlError::Malformed(raw));
            }
            proof {
                assert(raw@ != seq![59u8]) by {
                    if raw@ == seq![59u8] {
                        assert(raw@.len() == 1 && raw@[0] == 59u8);
                    }
                }
                assert(part@.last() == 59u8);
                lemma_trim_keeps_semicolon(part@);
            }
            let ghost before = out@;
            out.push(raw);
            proof {
                assert(out@.map_values(|x: Vec<u8>| x@) =~= before.map_values(|x: Vec<u8>| x@).push(raw@));
                match statement_parts(s@, i + 1, i + 1, t) {
                    Ok(rest) => {
                        assert(before.map_values(|x: Vec<u8>| x@) + (seq![raw@] + rest) =~= out@.map_values(
                            |x: Vec<u8>| x@,
                        ) + rest);
                    },
                    Err(_) => {},
                }
                let ov = out@.map_values(|x: Vec<u8>| x@);
                assert forall|k: int| 0 <= k < ov.len() implies (#[trigger] ov[k]).len() > 0 && ov[k].last()
                    == 59u8 by {
                    if k < ov.len() - 1 {
                        assert(ov[k] == before.map_values(|x: Vec<u8>| x@)[k]);
                    }
                }
            }
            start = i + 1;
        }
        in_text = t;
        i = i + 1;
    }
    let tail = copy_range(s, start, s.len());
    let trailing = trim_copy(tail.as_slice());
    if in_text || trailing.len() > 0 || out.len() == 0 {
        proof {
            if !in_text && trailing@.len() == 0 {
                assert(out@.map_values(|x: Vec<u8>| x@) + Seq::<Seq<u8>>::empty() =~= out@.map_values(
                    |x: Vec<u8>| x@,
                ));
            }
        }
        return Err(SqlError::Malformed(trim_copy(s)));
    }
    assert(out@.map_values(|x: Vec<u8>| x@) + Seq::<Seq<u8>>::empty() =~= out@.map_values(|x: Vec<u8>| x@));
    Ok(out)
}

/// The statements of a list of parts, in order, or the first error.
pub open spec fn statements_of(parts: Seq<Seq<u8>>) -> Result<Seq<StatementM>, SqlErrorM>
    decreases parts.len(),
{
    if parts.len() == 0 {
        Ok(Seq::empty())
    } else {
        match statements_of(parts.drop_last()) {
            Err(e) => Err(e),
            Ok(done) => match statement_spec(parts.last()) {
                Err(e) => Err(e),
                Ok(st) => Ok(done.push(st)),
            },
        }
    }
}

/// The statements of SQL text, or the first error.
pub open spec fn statements_spec(sql: Seq<u8>) -> Result<Seq<StatementM>, SqlErrorM> {
    match split_spec(sql) {
        Err(t) => Err(SqlErrorM::Malformed(t)),
        Ok(parts) => statements_of(parts),
    }
}

/// The models of a list of statements.
pub open spec fn statements_view(v: Seq<Statement>) -> Seq<StatementM> {
    v.map_values(|st: Statement| st@)
}

/// A text that does not parse is malformed or unsupported.
pub proof fn lemma_statements_error_kind(sql: Seq<u8>)
    ensures
        statements_spec(sql) matches Err(e) ==> e is Malformed || e is Unsupported,
{
    match split_spec(sql) {
        Err(_) => {},
        Ok(parts) => lemma_statements_of_error_kind(parts),
    }
}

proof fn lemma_statements_of_error_kind(parts: Seq<Seq<u8>>)
    ensures
        statements_of(parts) matches Err(e) ==> e is Malformed || e is Unsupported,
    decreases parts.len(),
{
    if parts.len() > 0 {
        lemma_statements_of_error_kind(parts.drop_last());
        lemma_statement_error_kind(parts.last());
    }
}

proof fn lemma_statement_error_kind(raw: Seq<u8>)
    ensures
        statement_spec(raw) matches Err(e) ==> e is Malformed || e is Unsupported,
{
    reveal(statement_spec);
}

proof fn lemma_statements_err_after(parts: Seq<Seq<u8>>, k: int)
    requires
        0 <= k <= parts.len(),
        statements_of(parts.subrange(0, k)) is Err,
    ensures
        statements_of(parts) == statements_of(parts.subrange(0, k)),
    decreases parts.len() - k,
{
    if k < parts.len() {
        assert(parts.subrange(0, k + 1).drop_last() =~= parts.subrange(0, k));
        lemma_statements_err_after(parts, k + 1);
    } else {
        assert(parts.subrange(0, k) =~= parts);
    }
}

/// Parses SQL text into its statements.
pub fn parse_statements(sql: &[u8]) -> (r: Result<Vec<Statement>, SqlError>)
    ensures
        match statements_spec(sql@) {
            Ok(m) => r matches Ok(v) && statements_view(v@) == m,
            Err(e) => r matches Err(x) && x@ == e,
        },
{
    let parts = split_raw_statements(sql)?;
    let ghost all = parts@.map_values(|x: Vec<u8>| x@);
    assert(split_spec(sql@) matches Ok(p) && p == all);
    let mut out: Vec<Statement> = Vec::new();
    let mut k: usize = 0;
    assert(statements_view(out@) =~= Seq::<StatementM>::empty());
    while k < parts.len()
        invariant
            k <= parts@.len(),
            all == parts@.map_values(|x: Vec<u8>| x@),
            statements_spec(sql@) == statements_of(all),
            parts_end_with_semicolon(all),
            statements_of(all.subrange(0, k as int)) == Ok::<Seq<StatementM>, SqlErrorM>(statements_view(out@)),
        decreases parts@.len() - k,
    {
        assert(all.subrange(0, k + 1).drop_last() =~= all.subrange(0, k as int));
        assert(all.subrange(0, k + 1).last() == parts@[k as int]@);
        assert(all[k as int].len() > 0);
        let st = match parse_statement(parts[k].as_slice()) {
            Ok(st) => st,
            Err(e) => {
                proof {
                    assert(statements_of(all.subrange(0, k + 1)) == Err::<Seq<StatementM>, SqlErrorM>(e@));
                    lemma_statements_err_after(all, k as int + 1);
                }
                return Err(e);
            },
        };
        let ghost before = out@;
        out.push(st);
        assert(statements_view(out@) =~= statements_view(before).push(st@));
        k = k + 1;
    }
    assert(all.subrange(0, all.len() as int) =~= all);
    Ok(out)
}

} // verus!
