//! Running a list of statements in order: each one's effect on the
//! database, the records it appends and the text it prints, stopping at the
//! first error.
use crate::engine::{execute_select, execute_select_where, select_all_spec, select_where_spec};
use crate::page::{StorageError, MAX_RECORD_PAYLOAD_LEN};
use crate::parser::{Statement, StatementM, statements_view};
use crate::record::{RecordM, encode_record};
use crate::rows::{delete_row_spec, update_row_spec};
use crate::schema::{Database, TableM, db_ok};
use crate::sql::{SqlError, SqlErrorM};
use crate::statements::{
    create_index_outcome, create_index_post, create_table_check, delete_check, execute_create_index,
    execute_create_table, execute_delete, execute_insert, execute_update, fill_entries, insert_apply, insert_check,
    new_table, update_check, update_payload,
};
use crate::storage::PageStore;
use vstd::prelude::*;

verus! {

/// What `CREATE INDEX` does to a database whose store holds `n` records:
/// the build's outcome, printing nothing.
pub open spec fn step_create_index(db: Seq<TableM>, index: Seq<u8>, table: Seq<u8>, column: Seq<u8>, n: int) -> Result<
    (Seq<TableM>, Seq<Seq<u8>>, Seq<u8>),
    (SqlErrorM, Seq<Seq<u8>>),
> {
    match create_index_outcome(db, n as u64, index, table, column) {
        Ok((d, ps)) => Ok((d, ps, Seq::empty())),
        Err((e, ps)) => Err((e, ps)),
    }
}

/// What one statement does to a database whose store holds `n` records,
/// when the machine has room for the records: the new database, the records
/// appended and the text printed; or the error, with the records appended
/// before it.
#[verifier::opaque]
pub open spec fn step_spec(db: Seq<TableM>, st: StatementM, n: int) -> Result<
    (Seq<TableM>, Seq<Seq<u8>>, Seq<u8>),
    (SqlErrorM, Seq<Seq<u8>>),
> {
    let too_large = SqlErrorM::Storage(StorageError::RecordTooLarge);
    match st {
        StatementM::CreateTable { table, columns } => match create_table_check(db, table, columns) {
            Err(e) => Err((e, Seq::empty())),
            Ok(()) => {
                let p = encode_record(RecordM::Catalog { table, columns });
                if p.len() > MAX_RECORD_PAYLOAD_LEN {
                    Err((too_large, Seq::empty()))
                } else {
                    Ok((db.push(new_table(table, columns)), seq![p], Seq::empty()))
                }
            },
        },
        StatementM::CreateIndex { index, table, column } => step_create_index(db, index, table, column, n),
        StatementM::Insert { table, values } => match insert_check(db, table, values) {
            Err(e) => Err((e, Seq::empty())),
            Ok((i, p)) => if p.len() > MAX_RECORD_PAYLOAD_LEN {
                Err((too_large, Seq::empty()))
            } else if db[i].rows.len() + 1 >= usize::MAX {
                Err((SqlErrorM::InvalidStorageRecord, seq![p]))
            } else {
                match insert_apply(db[i], values) {
                    Some(t) => Ok((db.update(i, t), seq![p], Seq::empty())),
                    None => Err((SqlErrorM::InvalidStorageRecord, seq![p])),
                }
            },
        },
        StatementM::Update { table, set_column, value, where_column, key } => match update_check(
            db,
            table,
            set_column,
            value,
            where_column,
            key,
        ) {
            Err(e) => Err((e, Seq::empty())),
            Ok(None) => Ok((db, Seq::empty(), Seq::empty())),
            Ok(Some((i, p, vs, es))) => {
                let payload = update_payload(db[i], p, vs, es);
                if payload.len() > MAX_RECORD_PAYLOAD_LEN {
                    Err((too_large, Seq::empty()))
                } else {
                    match update_row_spec(db[i], p, vs, es) {
                        Some(t) => Ok((db.update(i, t), seq![payload], Seq::empty())),
                        None => Err((SqlErrorM::InvalidStorageRecord, seq![payload])),
                    }
                }
            },
        },
        StatementM::Delete { table, where_column, key } => match delete_check(db, table, where_column, key) {
            Err(e) => Err((e, Seq::empty())),
            Ok(None) => Ok((db, Seq::empty(), Seq::empty())),
            Ok(Some((i, p))) => {
                let payload = encode_record(RecordM::DeleteRow { table: db[i].name, row_position: p as u64 });
                if payload.len() > MAX_RECORD_PAYLOAD_LEN {
                    Err((too_large, Seq::empty()))
                } else {
                    match delete_row_spec(db[i], p) {
                        Some(t) => Ok((db.update(i, t), seq![payload], Seq::empty())),
                        None => Err((SqlErrorM::InvalidStorageRecord, seq![payload])),
                    }
                }
            },
        },
        StatementM::SelectAll { table } => match select_all_spec(db, table) {
            Err(e) => Err((e, Seq::empty())),
            Ok(text) => Ok((db, Seq::empty(), text)),
        },
        StatementM::SelectWhere { table, column, predicate, raw } => match select_where_spec(
            db,
            table,
            column,
            predicate,
            raw,
        ) {
            Err(e) => Err((e, Seq::empty())),
            Ok(text) => Ok((db, Seq::empty(), text)),
        },
    }
}

/// Statements run in order from a database whose store holds `n` records:
/// the printed text, or the first error; with the records appended, up to
/// and including what the failing statement appended.
pub open spec fn run_spec(db: Seq<TableM>, sts: Seq<StatementM>, n: int) -> (Result<(Seq<TableM>, Seq<u8>), SqlErrorM>, Seq<Seq<u8>>)
    decreases sts.len(),
{
    if sts.len() == 0 {
        (Ok((db, Seq::empty())), Seq::empty())
    } else {
        let (before, ps0) = run_spec(db, sts.drop_last(), n);
        match before {
            Err(e) => (Err(e), ps0),
            Ok((d1, out)) => match step_spec(d1, sts.last(), n + ps0.len()) {
                Err((e, ps1)) => (Err(e), ps0 + ps1),
                Ok((d2, ps1, text)) => (Ok((d2, out + text)), ps0 + ps1),
            },
        }
    }
}

/// The machine had no room for a record: the store holds the records of
/// `ps` before some record `k`, and the store so reached (`room` says
/// whether it could take one more record) has no room for record `k`.
pub open spec fn stopped_for_room(
    r: Result<Vec<u8>, SqlError>,
    before: Seq<Seq<u8>>,
    after: Seq<Seq<u8>>,
    ps: Seq<Seq<u8>>,
    room: bool,
) -> bool {
    &&& r matches Err(x) && x@ == SqlErrorM::Storage(StorageError::Io)
    &&& !room
    &&& exists|k: int| 0 <= k < ps.len() && after == before + ps.subrange(0, k)
}

/// The records a step appends when nothing stops it early.
pub open spec fn step_payloads(db: Seq<TableM>, st: StatementM, n: int) -> Seq<Seq<u8>> {
    match step_spec(db, st, n) {
        Ok((_, ps, _)) => ps,
        Err((_, ps)) => ps,
    }
}

/// What running statement `st` from database `d0` and store records `s0`
/// may give: what `step_spec` says, or a stop for lack of room.
pub open spec fn step_holds(
    r: Result<Vec<u8>, SqlError>,
    s0: Seq<Seq<u8>>,
    s1: Seq<Seq<u8>>,
    d0: Seq<TableM>,
    d1: Seq<TableM>,
    room: bool,
    st: StatementM,
) -> bool {
    let n = s0.len() as int;
    stopped_for_room(r, s0, s1, step_payloads(d0, st, n), room) || match step_spec(d0, st, n) {
        Ok((d, ps, text)) => r matches Ok(out) && out@ == text && d1 == d && s1 == s0 + ps,
        Err((e, ps)) => r matches Err(x) && x@ == e && s1 == s0 + ps,
    }
}

#[verifier::spinoff_prover]
fn run_create_table(store: &mut PageStore, db: &mut Database, table: Vec<u8>, columns: Vec<crate::record::Column>) -> (r: Result<Vec<u8>, SqlError>)
    requires
        old(store).wf(),
        db_ok(old(db)@),
    ensures
        final(store).wf(),
        r is Ok ==> db_ok(final(db)@),
        step_holds(r, old(store).records(), final(store).records(), old(db)@, final(db)@, final(store).append_fits(),
            StatementM::CreateTable { table: table@, columns: crate::record::columns_view(columns@) }),
{
    proof {
        reveal(step_spec);
    }
    let ghost s0 = store.records();
    let ghost p = encode_record(RecordM::Catalog { table: table@, columns: crate::record::columns_view(columns@) });
    let res = execute_create_table(store, db, table, columns);
    assert(s0 + Seq::<Seq<u8>>::empty() =~= s0);
    assert(s0.push(p) =~= s0 + seq![p]);
    assert(s0 =~= s0 + seq![p].subrange(0, 0));
    assert(seq![p].subrange(0, 1) =~= seq![p]);
    match res {
        Ok(()) => {
            let out: Vec<u8> = Vec::new();
            assert(out@ =~= Seq::<u8>::empty());
            Ok(out)
        },
        Err(e) => Err(e),
    }
}

proof fn lemma_step_create_index(db: Seq<TableM>, index: Seq<u8>, table: Seq<u8>, column: Seq<u8>, n: int)
    ensures
        step_spec(db, StatementM::CreateIndex { index, table, column }, n) == step_create_index(db, index, table, column, n),
{
    reveal(step_spec);
}

proof fn lemma_create_index_holds(
    res: Result<u64, SqlError>,
    r: Result<Vec<u8>, SqlError>,
    s0: Seq<Seq<u8>>,
    s1: Seq<Seq<u8>>,
    d0: Seq<TableM>,
    d1: Seq<TableM>,
    index: Seq<u8>,
    table: Seq<u8>,
    column: Seq<u8>,
    room: bool,
)
    requires
        res is Ok ==> (r matches Ok(out) && out@ == Seq::<u8>::empty()),
        res matches Err(e) ==> (r matches Err(x) && x@ == e@),
        create_index_post(res, s0, s1, d0, d1, s0.len() as u64, index, table, column, room),
    ensures
        step_holds(r, s0, s1, d0, d1, room, StatementM::CreateIndex { index, table, column }),
{
    lemma_step_create_index(d0, index, table, column, s0.len() as int);
}

#[verifier::spinoff_prover]
fn run_create_index(store: &mut PageStore, db: &mut Database, index: Vec<u8>, table: Vec<u8>, column: Vec<u8>) -> (r: Result<Vec<u8>, SqlError>)
    requires
        old(store).wf(),
        db_ok(old(db)@),
    ensures
        final(store).wf(),
        r is Ok ==> db_ok(final(db)@),
        step_holds(r, old(store).records(), final(store).records(), old(db)@, final(db)@, final(store).append_fits(),
            StatementM::CreateIndex { index: index@, table: table@, column: column@ }),
{
    let ghost d0 = db@;
    let ghost s0 = store.records();
    let ghost iv = index@;
    let build_id = store.record_count();
    let res = execute_create_index(store, db, build_id, index, table.as_slice(), column.as_slice());
    let r = match &res {
        Ok(_) => {
            let out: Vec<u8> = Vec::new();
            assert(out@ =~= Seq::<u8>::empty());
            Ok(out)
        },
        Err(e) => Err(e.clone_error()),
    };
    proof {
        lemma_create_index_holds(res, r, s0, store.records(), d0, db@, iv, table@, column@, store.append_fits());
    }
    r
}

#[verifier::spinoff_prover]
fn run_insert(store: &mut PageStore, db: &mut Database, table: Vec<u8>, values: Vec<crate::record::Value>) -> (r: Result<Vec<u8>, SqlError>)
    requires
        old(store).wf(),
        db_ok(old(db)@),
    ensures
        final(store).wf(),
        r is Ok ==> db_ok(final(db)@),
        step_holds(r, old(store).records(), final(store).records(), old(db)@, final(db)@, final(store).append_fits(),
            StatementM::Insert { table: table@, values: crate::record::values_view(values@) }),
{
    proof {
        reveal(step_spec);
    }
    let ghost d0 = db@;
    let ghost s0 = store.records();
    let ghost vv = crate::record::values_view(values@);
    let res = execute_insert(store, db, table.as_slice(), values);
    proof {
        assert(s0 + Seq::<Seq<u8>>::empty() =~= s0);
        match insert_check(d0, table@, vv) {
            Err(_) => {},
            Ok((i, p)) => {
                assert(s0.push(p) =~= s0 + seq![p]);
                assert(s0 =~= s0 + seq![p].subrange(0, 0));
                assert(seq![p].subrange(0, 1) =~= seq![p]);
            },
        }
    }
    match res {
        Ok(()) => {
            let out: Vec<u8> = Vec::new();
            assert(out@ =~= Seq::<u8>::empty());
            Ok(out)
        },
        Err(e) => Err(e),
    }
}

#[verifier::spinoff_prover]
fn run_update(
    store: &mut PageStore,
    db: &mut Database,
    table: Vec<u8>,
    set_column: Vec<u8>,
    value: crate::record::Value,
    where_column: Vec<u8>,
    key: i64,
) -> (r: Result<Vec<u8>, SqlError>)
    requires
        old(store).wf(),
        db_ok(old(db)@),
    ensures
        final(store).wf(),
        r is Ok ==> db_ok(final(db)@),
        step_holds(r, old(store).records(), final(store).records(), old(db)@, final(db)@, final(store).append_fits(),
            StatementM::Update { table: table@, set_column: set_column@, value: value@, where_column: where_column@, key }),
{
    proof {
        reveal(step_spec);
    }
    let ghost d0 = db@;
    let ghost s0 = store.records();
    let res = execute_update(store, db, table.as_slice(), set_column.as_slice(), &value, where_column.as_slice(), key);
    proof {
        assert(s0 + Seq::<Seq<u8>>::empty() =~= s0);
        match update_check(d0, table@, set_column@, value@, where_column@, key) {
            Ok(Some((i, p, vs, es))) => {
                let pl = update_payload(d0[i], p, vs, es);
                assert(s0.push(pl) =~= s0 + seq![pl]);
                assert(s0 =~= s0 + seq![pl].subrange(0, 0));
                assert(seq![pl].subrange(0, 1) =~= seq![pl]);
            },
            _ => {},
        }
    }
    match res {
        Ok(_) => {
            let out: Vec<u8> = Vec::new();
            assert(out@ =~= Seq::<u8>::empty());
            Ok(out)
        },
        Err(e) => Err(e),
    }
}

#[verifier::spinoff_prover]
fn run_delete(store: &mut PageStore, db: &mut Database, table: Vec<u8>, where_column: Vec<u8>, key: i64) -> (r: Result<Vec<u8>, SqlError>)
    requires
        old(store).wf(),
        db_ok(old(db)@),
    ensures
        final(store).wf(),
        r is Ok ==> db_ok(final(db)@),
        step_holds(r, old(store).records(), final(store).records(), old(db)@, final(db)@, final(store).append_fits(),
            StatementM::Delete { table: table@, where_column: where_column@, key }),
{
    proof {
        reveal(step_spec);
    }
    let ghost d0 = db@;
    let ghost s0 = store.records();
    let res = execute_delete(store, db, table.as_slice(), where_column.as_slice(), key);
    proof {
        assert(s0 + Seq::<Seq<u8>>::empty() =~= s0);
        match delete_check(d0, table@, where_column@, key) {
            Ok(Some((i, p))) => {
                let pl = encode_record(RecordM::DeleteRow { table: d0[i].name, row_position: p as u64 });
                assert(s0.push(pl) =~= s0 + seq![pl]);
                assert(s0 =~= s0 + seq![pl].subrange(0, 0));
                assert(seq![pl].subrange(0, 1) =~= seq![pl]);
            },
            _ => {},
        }
    }
    match res {
        Ok(_) => {
            let out: Vec<u8> = Vec::new();
            assert(out@ =~= Seq::<u8>::empty());
            Ok(out)
        },
        Err(e) => Err(e),
    }
}

/// Runs one statement: its printed text.
pub fn execute_statement(store: &mut PageStore, db: &mut Database, st: Statement) -> (r: Result<Vec<u8>, SqlError>)
    requires
        old(store).wf(),
        db_ok(old(db)@),
    ensures
        final(store).wf(),
        r is Ok ==> db_ok(final(db)@),
        step_holds(r, old(store).records(), final(store).records(), old(db)@, final(db)@, final(store).append_fits(), st@),
{
    proof {
        reveal(step_spec);
    }
    let ghost s0 = store.records();
    match st {
        Statement::CreateTable { table, columns } => run_create_table(store, db, table, columns),
        Statement::CreateIndex { index, table, column } => run_create_index(store, db, index, table, column),
        Statement::Insert { table, values } => run_insert(store, db, table, values),
        Statement::Update { table, set_column, value, where_column, key } => run_update(
            store,
            db,
            table,
            set_column,
            value,
            where_column,
            key,
        ),
        Statement::Delete { table, where_column, key } => run_delete(store, db, table, where_column, key),
        Statement::SelectAll { table } => {
            let mut out: Vec<u8> = Vec::new();
            let res = execute_select(db, table.as_slice(), &mut out);
            assert(s0 + Seq::<Seq<u8>>::empty() =~= s0);
            match res {
                Ok(()) => {
                    assert(out@ =~= Seq::<u8>::empty() + out@);
                    Ok(out)
                },
                Err(e) => Err(e),
            }
        },
        Statement::SelectWhere { table, column, predicate, raw } => {
            let mut out: Vec<u8> = Vec::new();
            let res = execute_select_where(db, table.as_slice(), column.as_slice(), predicate, raw.as_slice(), &mut out);
            assert(s0 + Seq::<Seq<u8>>::empty() =~= s0);
            match res {
                Ok(()) => {
                    assert(out@ =~= Seq::<u8>::empty() + out@);
                    Ok(out)
                },
                Err(e) => Err(e),
            }
        },
    }
}

/// What running statements `sts` from database `d0` and store records
/// `s0` may give: what `run_spec` says, or a stop for lack of room that
/// leaves a prefix of its records in the store.
pub open spec fn run_holds(
    r: Result<Vec<u8>, SqlError>,
    s0: Seq<Seq<u8>>,
    s1: Seq<Seq<u8>>,
    d0: Seq<TableM>,
    d1: Seq<TableM>,
    room: bool,
    sts: Seq<StatementM>,
) -> bool {
    let (res, ps) = run_spec(d0, sts, s0.len() as int);
    stopped_for_room(r, s0, s1, ps, room) || match res {
        Ok((d, out)) => r matches Ok(o) && o@ == out && d1 == d && s1 == s0 + ps,
        Err(e) => r matches Err(x) && x@ == e && s1 == s0 + ps,
    }
}

/// Once a prefix of the statements fails, running more changes nothing.
proof fn lemma_run_err_stays(d0: Seq<TableM>, sts: Seq<StatementM>, n0: int, m: int, j: int)
    requires
        0 <= m <= j <= sts.len(),
        run_spec(d0, sts.subrange(0, m), n0).0 is Err,
    ensures
        run_spec(d0, sts.subrange(0, j), n0) == run_spec(d0, sts.subrange(0, m), n0),
    decreases j - m,
{
    if j > m {
        lemma_run_err_stays(d0, sts, n0, m, j - 1);
        assert(sts.subrange(0, j).drop_last() =~= sts.subrange(0, j - 1));
    }
}

/// The records of a prefix of the statements begin the records of more.
proof fn lemma_run_prefix(d0: Seq<TableM>, sts: Seq<StatementM>, n0: int, m: int, j: int)
    requires
        0 <= m <= j <= sts.len(),
    ensures
        run_spec(d0, sts.subrange(0, m), n0).1.len() <= run_spec(d0, sts.subrange(0, j), n0).1.len(),
        run_spec(d0, sts.subrange(0, j), n0).1.subrange(0, run_spec(d0, sts.subrange(0, m), n0).1.len() as int)
            == run_spec(d0, sts.subrange(0, m), n0).1,
    decreases j - m,
{
    let a = run_spec(d0, sts.subrange(0, m), n0).1;
    if j > m {
        lemma_run_prefix(d0, sts, n0, m, j - 1);
        assert(sts.subrange(0, j).drop_last() =~= sts.subrange(0, j - 1));
        let b = run_spec(d0, sts.subrange(0, j - 1), n0).1;
        let c = run_spec(d0, sts.subrange(0, j), n0).1;
        assert(c.subrange(0, b.len() as int) =~= b);
        assert(c.subrange(0, a.len() as int) =~= b.subrange(0, a.len() as int));
    } else {
        assert(a.subrange(0, a.len() as int) =~= a);
    }
}

/// One more statement run after a prefix that went through.
proof fn lemma_run_next(
    d0: Seq<TableM>,
    sts: Seq<StatementM>,
    s0: Seq<Seq<u8>>,
    k: int,
    dr: Seq<TableM>,
    out: Seq<u8>,
    ps0: Seq<Seq<u8>>,
)
    requires
        0 <= k < sts.len(),
        run_spec(d0, sts.subrange(0, k), s0.len() as int) == (Ok::<_, SqlErrorM>((dr, out)), ps0),
    ensures
        run_spec(d0, sts.subrange(0, k + 1), s0.len() as int) == match step_spec(dr, sts[k], (s0 + ps0).len() as int) {
            Err((e, ps1)) => (Err(e), ps0 + ps1),
            Ok((d2, ps1, text)) => (Ok((d2, out + text)), ps0 + ps1),
        },
        step_payloads(dr, sts[k], (s0 + ps0).len() as int) == match step_spec(dr, sts[k], (s0 + ps0).len() as int) {
            Err((e, ps1)) => ps1,
            Ok((d2, ps1, text)) => ps1,
        },
{
    assert(sts.subrange(0, k + 1).drop_last() =~= sts.subrange(0, k));
    assert(sts.subrange(0, k + 1).last() == sts[k]);
}

/// A statement that fails, or stops for lack of room, after a prefix
/// that went through ends the run.
proof fn lemma_run_stop(
    d0: Seq<TableM>,
    sts: Seq<StatementM>,
    s0: Seq<Seq<u8>>,
    k: int,
    dr: Seq<TableM>,
    out: Seq<u8>,
    ps0: Seq<Seq<u8>>,
    r: Result<Vec<u8>, SqlError>,
    s1: Seq<Seq<u8>>,
    d1: Seq<TableM>,
    room: bool,
)
    requires
        0 <= k < sts.len(),
        run_spec(d0, sts.subrange(0, k), s0.len() as int) == (Ok::<_, SqlErrorM>((dr, out)), ps0),
        r is Err,
        step_holds(r, s0 + ps0, s1, dr, d1, room, sts[k]),
    ensures
        run_holds(r, s0, s1, d0, d1, room, sts),
{
    let n0 = s0.len() as int;
    lemma_run_next(d0, sts, s0, k, dr, out, ps0);
    lemma_run_prefix(d0, sts, n0, k + 1, sts.len() as int);
    assert(sts.subrange(0, sts.len() as int) =~= sts);
    let full = run_spec(d0, sts, n0).1;
    let sp = step_payloads(dr, sts[k], (s0 + ps0).len() as int);
    assert(full.subrange(0, (ps0 + sp).len() as int) == ps0 + sp);
    if stopped_for_room(r, s0 + ps0, s1, sp, room) {
        let j = choose|j: int| 0 <= j < sp.len() && s1 == (s0 + ps0) + sp.subrange(0, j);
        assert forall|q: int| 0 <= q < ps0.len() + j implies #[trigger] full.subrange(0, ps0.len() + j)[q] == (ps0
            + sp.subrange(0, j))[q] by {
            assert(full.subrange(0, (ps0 + sp).len() as int)[q] == (ps0 + sp)[q]);
        }
        assert(full.subrange(0, ps0.len() + j) =~= ps0 + sp.subrange(0, j));
        assert(s1 =~= s0 + full.subrange(0, ps0.len() + j));
    } else {
        match step_spec(dr, sts[k], (s0 + ps0).len() as int) {
            Err((e, ps1)) => {
                lemma_run_err_stays(d0, sts, n0, k + 1, sts.len() as int);
                assert(s1 =~= s0 + (ps0 + ps1));
            },
            Ok(_) => {},
        }
    }
}

/// The statements in reverse order, so that popping gives them in order.
fn reversed(v: Vec<Statement>) -> (r: Vec<Statement>)
    ensures
        r@.len() == v@.len(),
        forall|q: int| 0 <= q < v@.len() ==> #[trigger] r@[q] == v@[v@.len() - 1 - q],
{
    let mut v = v;
    let ghost v0 = v@;
    let mut r: Vec<Statement> = Vec::new();
    while v.len() > 0
        invariant
            v@.len() + r@.len() == v0.len(),
            v@ == v0.subrange(0, v@.len() as int),
            forall|q: int| 0 <= q < r@.len() ==> #[trigger] r@[q] == v0[v0.len() - 1 - q],
        decreases v@.len(),
    {
        let ghost before = v@;
        let x = v.pop().unwrap();
        assert(v@ =~= v0.subrange(0, v@.len() as int));
        r.push(x);
    }
    r
}

/// Runs the statements in order, stopping at the first error: the text
/// they print.
pub fn execute_statements(store: &mut PageStore, db: &mut Database, stmts: Vec<Statement>) -> (r: Result<Vec<u8>, SqlError>)
    requires
        old(store).wf(),
        db_ok(old(db)@),
    ensures
        final(store).wf(),
        r is Ok ==> db_ok(final(db)@),
        run_holds(r, old(store).records(), final(store).records(), old(db)@, final(db)@, final(store).append_fits(),
            statements_view(stmts@)),
{
    let ghost s0 = store.records();
    let ghost d0 = db@;
    let ghost sts = statements_view(stmts@);
    let ghost n0 = s0.len() as int;
    let mut rest = reversed(stmts);
    let mut out: Vec<u8> = Vec::new();
    let n = rest.len();
    let mut k: usize = 0;
    assert(sts.subrange(0, 0) =~= Seq::<StatementM>::empty());
    assert(out@ =~= Seq::<u8>::empty());
    assert(s0 + Seq::<Seq<u8>>::empty() =~= s0);
    while k < n
        invariant
            n == sts.len(),
            k <= n,
            rest@.len() == n - k,
            forall|q: int| 0 <= q < rest@.len() ==> (#[trigger] rest@[q])@ == sts[n - 1 - q],
            store.wf(),
            db_ok(db@),
            s0.len() == n0,
            s0 == old(store).records(),
            d0 == old(db)@,
            sts == statements_view(stmts@),
            run_spec(d0, sts.subrange(0, k as int), n0).0 == Ok::<_, SqlErrorM>((db@, out@)),
            store.records() == s0 + run_spec(d0, sts.subrange(0, k as int), n0).1,
        decreases n - k,
    {
        let st = match rest.pop() {
            Some(st) => st,
            None => {
                return Ok(out);
            },
        };
        assert(st@ == sts[k as int]);
        let ghost sr = store.records();
        let ghost dr = db@;
        let ghost ps0 = run_spec(d0, sts.subrange(0, k as int), n0).1;
        proof {
            lemma_run_next(d0, sts, s0, k as int, dr, out@, ps0);
        }
        let res = execute_statement(store, db, st);
        if res.is_err() {
            proof {
                lemma_run_stop(d0, sts, s0, k as int, dr, out@, ps0, res, store.records(), db@, store.append_fits());
            }
            return res;
        }
        let mut text = match res {
            Ok(t) => t,
            Err(e) => {
                return Err(e);
            },
        };
        out.append(&mut text);
        proof {
            match step_spec(dr, sts[k as int], sr.len() as int) {
                Ok((d2, ps1, t)) => {
                    assert(s0 + ps0 + ps1 =~= s0 + (ps0 + ps1));
                },
                Err(_) => {},
            }
        }
        k = k + 1;
    }
    assert(sts.subrange(0, n as int) =~= sts);
    Ok(out)
}

} // verus!
