//! Secondary indexes stay what their rows give: every statement that
//! succeeds leaves each index holding exactly the entries a rebuild from
//! the table's rows would give, which a reopen checks.
use crate::persist::{lemma_add_entries_shape, lemma_drop_entries_shape, lemma_entries_shape, same_shape};
use crate::record::{EntryM, ValueM};
use crate::replay::{index_rebuilt, indexes_consistent, stale_pending};
use crate::rows::{add_entries, drop_entries, expected_entries, expected_entry};
use crate::schema::{live, row_at, same_name, IndexM, TableM};
use crate::statements::{backfill, fill_entries};
use crate::parser::StatementM;
use crate::run::step_spec;
use vstd::prelude::*;

verus! {

/// Every index of the table holds what the table's rows give.
pub open spec fn table_consistent(t: TableM) -> bool {
    forall|j: int| 0 <= j < t.indexes.len() ==> index_rebuilt(#[trigger] t.indexes[j], t)
}

/// No two indexes of the table share a name, ignoring case.
pub open spec fn table_names_distinct(t: TableM) -> bool {
    forall|a: int, b: int| 0 <= a < b < t.indexes.len() ==> !same_name(#[trigger] t.indexes[a].name, #[trigger] t.indexes[b].name)
}

/// The key an entry takes in its index.
pub open spec fn key_of(e: EntryM) -> (i64, i64) {
    (e.indexed_key, e.tie_break)
}

/// Two tables that hold the same rows in slots `0..m` under the same
/// primary key column.
pub open spec fn same_rows_below(t: TableM, u: TableM, m: int) -> bool {
    &&& t.pk == u.pk
    &&& 0 <= m <= t.rows.len()
    &&& m <= u.rows.len()
    &&& forall|p: int| 0 <= p < m ==> #[trigger] t.rows[p] == u.rows[p]
}

pub proof fn lemma_backfill_congruent(x: IndexM, y: IndexM, t: TableM, u: TableM, m: int)
    requires
        same_shape(x, y),
        same_rows_below(t, u, m),
    ensures
        backfill(x, t, m) == backfill(y, u, m),
    decreases m,
{
    if m > 0 {
        lemma_backfill_congruent(x, y, t, u, m - 1);
        assert(t.rows[m - 1] == u.rows[m - 1]);
        assert(live(t, m - 1) == live(u, m - 1));
    }
}

proof fn lemma_index_found(xs: Seq<IndexM>, e: EntryM, j: int, k: int)
    requires
        0 <= k <= j < xs.len(),
        e.build_id == xs[j].build_id,
        e.index_name == xs[j].name,
        forall|a: int, b: int| 0 <= a < b < xs.len() ==> !same_name(#[trigger] xs[a].name, #[trigger] xs[b].name),
    ensures
        crate::rows::index_of_entry(xs, e, k) == Some(j),
    decreases j - k,
{
    if k < j {
        assert(!same_name(xs[k].name, xs[j].name));
        lemma_index_found(xs, e, j, k + 1);
    }
}

/// Adding one entry per index, each carrying its index's name and build,
/// inserts each entry's key into its own index.
proof fn lemma_add_each(xs: Seq<IndexM>, es: Seq<EntryM>, p: usize)
    requires
        es.len() <= xs.len(),
        forall|k: int| 0 <= k < es.len() ==> (#[trigger] es[k]).index_name == xs[k].name && es[k].build_id == xs[k].build_id,
        forall|a: int, b: int| 0 <= a < b < xs.len() ==> !same_name(#[trigger] xs[a].name, #[trigger] xs[b].name),
    ensures
        add_entries(xs, es, p) matches Some(ys) ==> forall|k: int|
            0 <= k < xs.len() ==> if k < es.len() {
                !xs[k].entries.contains_key(key_of(es[k])) && (#[trigger] ys[k]).entries == xs[k].entries.insert(
                    key_of(es[k]),
                    p,
                )
            } else {
                ys[k].entries == xs[k].entries
            },
    decreases es.len(),
{
    if es.len() > 0 {
        let init = es.drop_last();
        assert forall|k: int| 0 <= k < init.len() implies (#[trigger] init[k]).index_name == xs[k].name && init[k].build_id
            == xs[k].build_id by {
            assert(init[k] == es[k]);
        }
        lemma_add_each(xs, init, p);
        lemma_add_entries_shape(xs, init, p);
        if let Some(cur) = add_entries(xs, init, p) {
            let m = es.len() - 1;
            let e = es.last();
            assert forall|a: int, b: int| 0 <= a < b < cur.len() implies !same_name(#[trigger] cur[a].name, #[trigger] cur[b].name) by {
                assert(cur[a].name == xs[a].name && cur[b].name == xs[b].name);
            }
            assert(e == es[m]);
            lemma_index_found(cur, e, m, 0);
            if let Some(ys) = add_entries(xs, es, p) {
                assert forall|k: int| 0 <= k < xs.len() implies if k < es.len() {
                    !xs[k].entries.contains_key(key_of(es[k])) && (#[trigger] ys[k]).entries == xs[k].entries.insert(
                        key_of(es[k]),
                        p,
                    )
                } else {
                    ys[k].entries == xs[k].entries
                } by {
                    if k < m {
                        assert(es[k] == init[k]);
                    }
                }
            }
        }
    }
}

/// An insert keeps every index of the table what its rows give.
pub proof fn lemma_insert_consistent(t: TableM, vs: Seq<ValueM>)
    requires
        table_consistent(t),
        table_names_distinct(t),
        t.rows.len() < usize::MAX,
        crate::statements::insert_apply(t, vs) is Some,
    ensures
        table_consistent(crate::statements::insert_apply(t, vs)->Some_0),
        table_names_distinct(crate::statements::insert_apply(t, vs)->Some_0),
{
    let t2 = crate::statements::insert_apply(t, vs)->Some_0;
    let n = t.rows.len() as int;
    if t.indexes.len() > 0 {
        let es = expected_entries(t, vs, n)->Some_0;
        lemma_entries_shape(t.indexes, t, vs, n);
        let xs = add_entries(t.indexes, es, n as usize)->Some_0;
        lemma_add_entries_shape(t.indexes, es, n as usize);
        lemma_add_each(t.indexes, es, n as usize);
        assert forall|j: int| 0 <= j < t2.indexes.len() implies index_rebuilt(#[trigger] t2.indexes[j], t2) by {
            let x = t.indexes[j];
            let y = t2.indexes[j];
            assert(y == xs[j]);
            assert(same_shape(y, x));
            assert(index_rebuilt(x, t));
            assert(same_rows_below(t2, t, n));
            lemma_backfill_congruent(y, x, t2, t, n);
            assert(live(t2, n));
            assert(row_at(t2, n) == vs);
            assert(expected_entry(x, t, vs, n) == Some(es[j]));
            assert(expected_entry(y, t2, vs, n) == expected_entry(x, t, vs, n));
            let b = backfill(x, t, n)->Some_0;
            assert(t2.rows.len() == n + 1);
            assert(backfill(y, t2, n + 1) == Some(b.push(es[j])));
            assert(b.push(es[j]).drop_last() =~= b);
            assert(es[j].row_position == n as u64);
            assert(fill_entries(Map::empty(), b.push(es[j])) == Some(x.entries.insert(key_of(es[j]), n as usize)));
        }
        assert forall|a: int, b: int| 0 <= a < b < t2.indexes.len() implies !same_name(
            #[trigger] t2.indexes[a].name,
            #[trigger] t2.indexes[b].name,
        ) by {
            assert(t2.indexes[a].name == t.indexes[a].name);
            assert(t2.indexes[b].name == t.indexes[b].name);
        }
    }
}

/// The rows of `t2` are those of `t` except in slot `p`, under the same
/// primary key column.
pub open spec fn same_rows_except(t: TableM, t2: TableM, p: int) -> bool {
    &&& t.pk == t2.pk
    &&& t.rows.len() == t2.rows.len()
    &&& 0 <= p < t.rows.len()
    &&& forall|q: int| 0 <= q < t.rows.len() && q != p ==> #[trigger] t.rows[q] == t2.rows[q]
}

/// A prefix of the rows gives a prefix of the entries.
proof fn lemma_backfill_prefix(x: IndexM, t: TableM, m: int, n: int)
    requires
        0 <= m <= n,
        backfill(x, t, n) is Some,
    ensures
        backfill(x, t, m) is Some,
        backfill(x, t, m)->Some_0.len() <= backfill(x, t, n)->Some_0.len(),
        backfill(x, t, m)->Some_0 == backfill(x, t, n)->Some_0.subrange(0, backfill(x, t, m)->Some_0.len() as int),
    decreases n - m,
{
    if m < n {
        lemma_backfill_prefix(x, t, m, n - 1);
        let b = backfill(x, t, n - 1)->Some_0;
        let bm = backfill(x, t, m)->Some_0;
        let bn = backfill(x, t, n)->Some_0;
        if live(t, n - 1) {
            assert(bn == b.push(bn.last()));
            assert(bn.subrange(0, bm.len() as int) =~= b.subrange(0, bm.len() as int));
        }
    } else {
        assert(backfill(x, t, n)->Some_0.subrange(0, backfill(x, t, n)->Some_0.len() as int) =~= backfill(x, t, n)->Some_0);
    }
}

/// Filling a prefix gives part of the map.
proof fn lemma_fill_prefix(b: Seq<EntryM>, k: int)
    requires
        0 <= k <= b.len(),
        fill_entries(Map::empty(), b) is Some,
    ensures
        fill_entries(Map::empty(), b.subrange(0, k)) is Some,
        forall|key: (i64, i64)| #[trigger] fill_entries(Map::empty(), b.subrange(0, k))->Some_0.contains_key(key) ==> fill_entries(
            Map::empty(),
            b,
        )->Some_0.contains_key(key) && fill_entries(Map::empty(), b)->Some_0[key] == fill_entries(
            Map::empty(),
            b.subrange(0, k),
        )->Some_0[key],
    decreases b.len() - k,
{
    if k < b.len() {
        let c = b.drop_last();
        assert(c.subrange(0, k) =~= b.subrange(0, k));
        lemma_fill_prefix(c, k);
    } else {
        assert(b.subrange(0, k) =~= b);
    }
}

/// Taking out one slot's entry takes its key out of the filled map, and
/// putting another entry in its place (`replacement`) puts that key in.
proof fn lemma_refill(
    x: IndexM,
    y: IndexM,
    t: TableM,
    t2: TableM,
    p: int,
    m: int,
    old_key: (i64, i64),
    replacement: Option<EntryM>,
    final_map: Map<(i64, i64), usize>,
)
    requires
        same_shape(x, y),
        same_rows_except(t, t2, p),
        p < m <= t.rows.len(),
        t.rows.len() < usize::MAX,
        live(t, p),
        backfill(x, t, t.rows.len() as int) is Some,
        fill_entries(Map::empty(), backfill(x, t, t.rows.len() as int)->Some_0) == Some(final_map),
        expected_entry(x, t, row_at(t, p), p) matches Some(e) && key_of(e) == old_key,
        match replacement {
            None => t2.rows[p] is None,
            Some(e2) => live(t2, p) && expected_entry(y, t2, row_at(t2, p), p) == Some(e2) && e2.row_position == p as u64
                && !final_map.remove(old_key).contains_key(key_of(e2)),
        },
    ensures
        backfill(x, t, m) is Some,
        fill_entries(Map::empty(), backfill(x, t, m)->Some_0) is Some,
        ({
            let mm = fill_entries(Map::empty(), backfill(x, t, m)->Some_0)->Some_0;
            &&& mm.contains_key(old_key)
            &&& mm[old_key] == p
            &&& backfill(y, t2, m) is Some
            &&& fill_entries(Map::empty(), backfill(y, t2, m)->Some_0) == Some(
                match replacement {
                    None => mm.remove(old_key),
                    Some(e2) => mm.remove(old_key).insert(key_of(e2), p as usize),
                },
            )
        }),
    decreases m,
{
    let n = t.rows.len() as int;
    lemma_backfill_prefix(x, t, m, n);
    let bm = backfill(x, t, m)->Some_0;
    lemma_fill_prefix(backfill(x, t, n)->Some_0, bm.len() as int);
    let mm = fill_entries(Map::empty(), bm)->Some_0;
    assert(same_rows_below(t, t2, p)) by {
        assert forall|q: int| 0 <= q < p implies #[trigger] t.rows[q] == t2.rows[q] by {}
    }
    if m == p + 1 {
        lemma_backfill_congruent(x, y, t, t2, p);
        lemma_backfill_prefix(x, t, p, n);
        let b = backfill(x, t, p)->Some_0;
        let e = expected_entry(x, t, row_at(t, p), p)->Some_0;
        assert(bm == b.push(e));
        assert(b.push(e).drop_last() =~= b);
        let mp = fill_entries(Map::empty(), b)->Some_0;
        assert(e.row_position == p as u64);
        assert(e.row_position as usize == p as usize);
        assert(fill_entries(Map::empty(), b.push(e)) == Some(mp.insert(key_of(e), e.row_position as usize)));
        assert(mm == mp.insert(old_key, p as usize));
        assert(!mp.contains_key(old_key));
        assert(mp =~= mm.remove(old_key));
        match replacement {
            None => {},
            Some(e2) => {
                assert(backfill(y, t2, m) == Some(b.push(e2)));
                assert(b.push(e2).drop_last() =~= b);
                assert forall|k: (i64, i64)| mp.contains_key(k) implies final_map.remove(old_key).contains_key(k) by {
                    assert(mm.contains_key(k));
                }
                assert(!mp.contains_key(key_of(e2)));
            },
        }
    } else {
        lemma_refill(x, y, t, t2, p, m - 1, old_key, replacement, final_map);
        let prev = fill_entries(Map::empty(), backfill(x, t, m - 1)->Some_0)->Some_0;
        let prev2 = match replacement {
            None => prev.remove(old_key),
            Some(e2) => prev.remove(old_key).insert(key_of(e2), p as usize),
        };
        let q = m - 1;
        assert(t.rows[q] == t2.rows[q]);
        if live(t, q) {
            let b = backfill(x, t, q)->Some_0;
            let e = expected_entry(x, t, row_at(t, q), q)->Some_0;
            assert(expected_entry(y, t2, row_at(t2, q), q) == Some(e));
            assert(bm == b.push(e));
            assert(b.push(e).drop_last() =~= b);
            let b2 = backfill(y, t2, q)->Some_0;
            assert(backfill(y, t2, m) == Some(b2.push(e)));
            assert(b2.push(e).drop_last() =~= b2);
            assert(e.row_position == q as u64);
            assert(e.row_position as usize == q as usize);
            assert(fill_entries(Map::empty(), b.push(e)) == Some(prev.insert(key_of(e), e.row_position as usize)));
            assert(!prev.contains_key(key_of(e)));
            assert(mm == prev.insert(key_of(e), q as usize));
            assert(key_of(e) != old_key);
            assert(mm.contains_key(key_of(e)));
            match replacement {
                None => {
                    assert(prev2.insert(key_of(e), q as usize) =~= mm.remove(old_key));
                },
                Some(e2) => {
                    assert(final_map.contains_key(key_of(e)));
                    assert(final_map.remove(old_key).contains_key(key_of(e)));
                    assert(key_of(e) != key_of(e2));
                    assert(!prev2.contains_key(key_of(e)));
                    assert(prev2.insert(key_of(e), q as usize) =~= mm.remove(old_key).insert(key_of(e2), p as usize));
                },
            }
        } else {
            assert(bm == backfill(x, t, q)->Some_0);
            assert(!live(t2, q));
        }
    }
}

/// Taking out one entry per index, each carrying its index's name and
/// build, takes each entry's key out of its own index.
proof fn lemma_drop_each(xs: Seq<IndexM>, es: Seq<EntryM>, p: usize)
    requires
        es.len() <= xs.len(),
        forall|k: int| 0 <= k < es.len() ==> (#[trigger] es[k]).index_name == xs[k].name && es[k].build_id == xs[k].build_id,
        forall|a: int, b: int| 0 <= a < b < xs.len() ==> !same_name(#[trigger] xs[a].name, #[trigger] xs[b].name),
    ensures
        drop_entries(xs, es, p) matches Some(ys) ==> forall|k: int|
            0 <= k < xs.len() ==> if k < es.len() {
                xs[k].entries.contains_key(key_of(es[k])) && xs[k].entries[key_of(es[k])] == p && (#[trigger] ys[k]).entries
                    == xs[k].entries.remove(key_of(es[k]))
            } else {
                ys[k].entries == xs[k].entries
            },
    decreases es.len(),
{
    if es.len() > 0 {
        let init = es.drop_last();
        assert forall|k: int| 0 <= k < init.len() implies (#[trigger] init[k]).index_name == xs[k].name && init[k].build_id
            == xs[k].build_id by {
            assert(init[k] == es[k]);
        }
        lemma_drop_each(xs, init, p);
        lemma_drop_entries_shape(xs, init, p);
        if let Some(cur) = drop_entries(xs, init, p) {
            let m = es.len() - 1;
            let e = es.last();
            assert forall|a: int, b: int| 0 <= a < b < cur.len() implies !same_name(#[trigger] cur[a].name, #[trigger] cur[b].name) by {
                assert(cur[a].name == xs[a].name && cur[b].name == xs[b].name);
            }
            assert(e == es[m]);
            lemma_index_found(cur, e, m, 0);
            if let Some(ys) = drop_entries(xs, es, p) {
                assert forall|k: int| 0 <= k < xs.len() implies if k < es.len() {
                    xs[k].entries.contains_key(key_of(es[k])) && xs[k].entries[key_of(es[k])] == p && (#[trigger] ys[k]).entries
                        == xs[k].entries.remove(key_of(es[k]))
                } else {
                    ys[k].entries == xs[k].entries
                } by {
                    if k < m {
                        assert(es[k] == init[k]);
                    }
                }
            }
        }
    }
}

/// A delete keeps every index of the table what its rows give.
pub proof fn lemma_delete_consistent(t: TableM, p: int)
    requires
        table_consistent(t),
        table_names_distinct(t),
        t.rows.len() < usize::MAX,
        crate::rows::delete_row_spec(t, p) is Some,
    ensures
        table_consistent(crate::rows::delete_row_spec(t, p)->Some_0),
        table_names_distinct(crate::rows::delete_row_spec(t, p)->Some_0),
{
    let t2 = crate::rows::delete_row_spec(t, p)->Some_0;
    let old = row_at(t, p);
    let old_es = expected_entries(t, old, p)->Some_0;
    lemma_entries_shape(t.indexes, t, old, p);
    lemma_drop_entries_shape(t.indexes, old_es, p as usize);
    lemma_drop_each(t.indexes, old_es, p as usize);
    assert(same_rows_except(t, t2, p));
    assert forall|j: int| 0 <= j < t2.indexes.len() implies index_rebuilt(#[trigger] t2.indexes[j], t2) by {
        let x = t.indexes[j];
        let y = t2.indexes[j];
        assert(index_rebuilt(x, t));
        let ko = key_of(old_es[j]);
        lemma_refill(x, y, t, t2, p, t.rows.len() as int, ko, None, x.entries);
        assert(y.entries == x.entries.remove(ko));
    }
    assert forall|a: int, b: int| 0 <= a < b < t2.indexes.len() implies !same_name(
        #[trigger] t2.indexes[a].name,
        #[trigger] t2.indexes[b].name,
    ) by {
        assert(t2.indexes[a].name == t.indexes[a].name);
        assert(t2.indexes[b].name == t.indexes[b].name);
    }
}

/// An update keeps every index of the table what its rows give.
pub proof fn lemma_update_consistent(t: TableM, p: int, vs: Seq<ValueM>, es: Seq<EntryM>)
    requires
        table_consistent(t),
        table_names_distinct(t),
        t.rows.len() < usize::MAX,
        expected_entries(t, vs, p) == Some(es),
        crate::rows::update_row_spec(t, p, vs, es) is Some,
    ensures
        table_consistent(crate::rows::update_row_spec(t, p, vs, es)->Some_0),
        table_names_distinct(crate::rows::update_row_spec(t, p, vs, es)->Some_0),
{
    let t2 = crate::rows::update_row_spec(t, p, vs, es)->Some_0;
    let old = row_at(t, p);
    let old_es = expected_entries(t, old, p)->Some_0;
    lemma_entries_shape(t.indexes, t, old, p);
    lemma_entries_shape(t.indexes, t, vs, p);
    let x1 = drop_entries(t.indexes, old_es, p as usize)->Some_0;
    lemma_drop_entries_shape(t.indexes, old_es, p as usize);
    lemma_drop_each(t.indexes, old_es, p as usize);
    assert forall|a: int, b: int| 0 <= a < b < x1.len() implies !same_name(#[trigger] x1[a].name, #[trigger] x1[b].name) by {
        assert(x1[a].name == t.indexes[a].name && x1[b].name == t.indexes[b].name);
    }
    lemma_add_entries_shape(x1, es, p as usize);
    lemma_add_each(x1, es, p as usize);
    assert(same_rows_except(t, t2, p));
    assert forall|j: int| 0 <= j < t2.indexes.len() implies index_rebuilt(#[trigger] t2.indexes[j], t2) by {
        let x = t.indexes[j];
        let y = t2.indexes[j];
        assert(index_rebuilt(x, t));
        let ko = key_of(old_es[j]);
        let kn = key_of(es[j]);
        assert(x1[j].entries == x.entries.remove(ko));
        assert(y.entries == x1[j].entries.insert(kn, p as usize));
        assert(same_shape(y, x));
        assert(live(t2, p) && row_at(t2, p) == vs);
        assert(expected_entry(x, t, vs, p) == Some(es[j]));
        assert(expected_entry(y, t2, vs, p) == Some(es[j]));
        lemma_refill(x, y, t, t2, p, t.rows.len() as int, ko, Some(es[j]), x.entries);
    }
    assert forall|a: int, b: int| 0 <= a < b < t2.indexes.len() implies !same_name(
        #[trigger] t2.indexes[a].name,
        #[trigger] t2.indexes[b].name,
    ) by {
        assert(t2.indexes[a].name == t.indexes[a].name);
        assert(t2.indexes[b].name == t.indexes[b].name);
    }
}

/// A new index filled from the rows keeps the table consistent.
pub proof fn lemma_new_index_consistent(
    t: TableM,
    bid: u64,
    index: Seq<u8>,
    c: int,
    mode: crate::record::TieBreakMode,
    es: Seq<EntryM>,
    m: Map<(i64, i64), usize>,
)
    requires
        table_consistent(t),
        table_names_distinct(t),
        forall|j: int| 0 <= j < t.indexes.len() ==> !same_name(#[trigger] t.indexes[j].name, index),
        backfill(IndexM { build_id: bid, name: index, column: c as usize, mode, entries: Map::empty() }, t, t.rows.len() as int)
            == Some(es),
        fill_entries(Map::empty(), es) == Some(m),
    ensures
        table_consistent(crate::statements::with_new_index(t, bid, index, c, mode, m)),
        table_names_distinct(crate::statements::with_new_index(t, bid, index, c, mode, m)),
{
    let t2 = crate::statements::with_new_index(t, bid, index, c, mode, m);
    let n = t.rows.len() as int;
    assert(same_rows_below(t2, t, n));
    assert forall|j: int| 0 <= j < t2.indexes.len() implies index_rebuilt(#[trigger] t2.indexes[j], t2) by {
        if j < t.indexes.len() {
            assert(t2.indexes[j] == t.indexes[j]);
            assert(index_rebuilt(t.indexes[j], t));
            lemma_backfill_congruent(t.indexes[j], t.indexes[j], t2, t, n);
        } else {
            let x = IndexM { build_id: bid, name: index, column: c as usize, mode, entries: Map::empty() };
            lemma_backfill_congruent(t2.indexes[j], x, t2, t, n);
        }
    }
    assert forall|a: int, b: int| 0 <= a < b < t2.indexes.len() implies !same_name(
        #[trigger] t2.indexes[a].name,
        #[trigger] t2.indexes[b].name,
    ) by {
        if b < t.indexes.len() {
            assert(t2.indexes[a] == t.indexes[a] && t2.indexes[b] == t.indexes[b]);
        } else {
            assert(t2.indexes[a] == t.indexes[a]);
            assert(t2.indexes[b].name == index);
        }
    }
}

/// What a reopen checks of the tables and the waiting entries, and what
/// keeps it checkable: every index holds what its rows give, no waiting
/// entry belongs to a committed build, index names are distinct within a
/// table, and every table has room for one more row slot.
pub open spec fn reopen_consistent(d: Seq<TableM>, pending: Seq<EntryM>) -> bool {
    &&& indexes_consistent(d)
    &&& !stale_pending(d, pending)
    &&& forall|i: int| 0 <= i < d.len() ==> table_names_distinct(#[trigger] d[i])
    &&& forall|i: int| 0 <= i < d.len() ==> (#[trigger] d[i]).rows.len() < usize::MAX
}

proof fn lemma_table_consistent_of(d: Seq<TableM>, pending: Seq<EntryM>, i: int)
    requires
        reopen_consistent(d, pending),
        0 <= i < d.len(),
    ensures
        table_consistent(d[i]),
{
    assert forall|j: int| 0 <= j < d[i].indexes.len() implies index_rebuilt(#[trigger] d[i].indexes[j], d[i]) by {}
}

/// Replacing a table by one with indexes of the same shapes.
proof fn lemma_replace_table(d: Seq<TableM>, pending: Seq<EntryM>, i: int, t2: TableM)
    requires
        reopen_consistent(d, pending),
        0 <= i < d.len(),
        table_consistent(t2),
        table_names_distinct(t2),
        t2.rows.len() < usize::MAX,
        t2.indexes.len() == d[i].indexes.len(),
        forall|j: int| 0 <= j < t2.indexes.len() ==> same_shape(#[trigger] t2.indexes[j], d[i].indexes[j]),
    ensures
        reopen_consistent(d.update(i, t2), pending),
{
    let d2 = d.update(i, t2);
    assert forall|a: int, j: int| 0 <= a < d2.len() && 0 <= j < d2[a].indexes.len() implies index_rebuilt(
        #[trigger] d2[a].indexes[j],
        d2[a],
    ) by {
        if a != i {
            assert(d2[a] == d[a]);
        }
    }
    if stale_pending(d2, pending) {
        let (k, a, j) = choose|k: int, a: int, j: int|
            0 <= k < pending.len() && 0 <= a < d2.len() && 0 <= j < d2[a].indexes.len() && crate::replay::same_build(
                #[trigger] pending[k],
                #[trigger] d2[a].indexes[j].name,
                d2[a].indexes[j].build_id,
            );
        assert(d[a].indexes[j].name == d2[a].indexes[j].name && d[a].indexes[j].build_id == d2[a].indexes[j].build_id);
        assert(crate::replay::same_build(pending[k], d[a].indexes[j].name, d[a].indexes[j].build_id));
        assert(stale_pending(d, pending));
    }
    assert forall|a: int| 0 <= a < d2.len() implies table_names_distinct(#[trigger] d2[a]) by {
        if a != i {
            assert(d2[a] == d[a]);
        }
    }
    assert forall|a: int| 0 <= a < d2.len() implies (#[trigger] d2[a]).rows.len() < usize::MAX by {
        if a != i {
            assert(d2[a] == d[a]);
        }
    }
}

/// Adding a table without indexes or rows.
proof fn lemma_push_table(d: Seq<TableM>, pending: Seq<EntryM>, t: TableM)
    requires
        reopen_consistent(d, pending),
        t.indexes.len() == 0,
        t.rows.len() == 0,
    ensures
        reopen_consistent(d.push(t), pending),
{
    let d2 = d.push(t);
    assert forall|a: int, j: int| 0 <= a < d2.len() && 0 <= j < d2[a].indexes.len() implies index_rebuilt(
        #[trigger] d2[a].indexes[j],
        d2[a],
    ) by {
        assert(d2[a] == d[a]);
    }
    if stale_pending(d2, pending) {
        let (k, a, j) = choose|k: int, a: int, j: int|
            0 <= k < pending.len() && 0 <= a < d2.len() && 0 <= j < d2[a].indexes.len() && crate::replay::same_build(
                #[trigger] pending[k],
                #[trigger] d2[a].indexes[j].name,
                d2[a].indexes[j].build_id,
            );
        assert(d2[a] == d[a]);
        assert(stale_pending(d, pending));
    }
    assert forall|a: int| 0 <= a < d2.len() implies table_names_distinct(#[trigger] d2[a]) by {
        if a < d.len() {
            assert(d2[a] == d[a]);
        }
    }
    assert forall|a: int| 0 <= a < d2.len() implies (#[trigger] d2[a]).rows.len() < usize::MAX by {
        if a < d.len() {
            assert(d2[a] == d[a]);
        }
    }
}

/// Adding an index whose build started after every waiting entry's.
proof fn lemma_add_index(d: Seq<TableM>, pending: Seq<EntryM>, i: int, t2: TableM, n: int)
    requires
        reopen_consistent(d, pending),
        0 <= i < d.len(),
        table_consistent(t2),
        table_names_distinct(t2),
        t2.rows.len() < usize::MAX,
        t2.indexes.len() == d[i].indexes.len() + 1,
        forall|j: int| 0 <= j < d[i].indexes.len() ==> #[trigger] t2.indexes[j] == d[i].indexes[j],
        t2.indexes.last().build_id >= n,
        forall|k: int| 0 <= k < pending.len() ==> (#[trigger] pending[k]).build_id < n,
    ensures
        reopen_consistent(d.update(i, t2), pending),
{
    let d2 = d.update(i, t2);
    assert forall|a: int, j: int| 0 <= a < d2.len() && 0 <= j < d2[a].indexes.len() implies index_rebuilt(
        #[trigger] d2[a].indexes[j],
        d2[a],
    ) by {
        if a != i {
            assert(d2[a] == d[a]);
        }
    }
    if stale_pending(d2, pending) {
        let (k, a, j) = choose|k: int, a: int, j: int|
            0 <= k < pending.len() && 0 <= a < d2.len() && 0 <= j < d2[a].indexes.len() && crate::replay::same_build(
                #[trigger] pending[k],
                #[trigger] d2[a].indexes[j].name,
                d2[a].indexes[j].build_id,
            );
        if a == i && j == d[i].indexes.len() {
            assert(pending[k].build_id < n);
        } else {
            assert(d[a].indexes[j] == d2[a].indexes[j]);
            assert(crate::replay::same_build(pending[k], d[a].indexes[j].name, d[a].indexes[j].build_id));
            assert(stale_pending(d, pending));
        }
    }
    assert forall|a: int| 0 <= a < d2.len() implies table_names_distinct(#[trigger] d2[a]) by {
        if a != i {
            assert(d2[a] == d[a]);
        }
    }
    assert forall|a: int| 0 <= a < d2.len() implies (#[trigger] d2[a]).rows.len() < usize::MAX by {
        if a != i {
            assert(d2[a] == d[a]);
        }
    }
}

proof fn lemma_insert_step_consistent(d: Seq<TableM>, pending: Seq<EntryM>, table: Seq<u8>, values: Seq<ValueM>, n: int)
    requires
        reopen_consistent(d, pending),
        step_spec(d, StatementM::Insert { table, values }, n) is Ok,
    ensures
        reopen_consistent(step_spec(d, StatementM::Insert { table, values }, n)->Ok_0.0, pending),
{
    reveal(step_spec);
    reveal(crate::statements::insert_check);
    crate::schema::lemma_find_table(d, table);
    let i = crate::schema::find_table(d, table)->Some_0;
    let t = d[i];
    lemma_table_consistent_of(d, pending, i);
    let t2 = crate::statements::insert_apply(t, values)->Some_0;
    lemma_insert_consistent(t, values);
    if t.indexes.len() > 0 {
        let es = expected_entries(t, values, t.rows.len() as int)->Some_0;
        lemma_add_entries_shape(t.indexes, es, t.rows.len() as usize);
    }
    lemma_replace_table(d, pending, i, t2);
}

proof fn lemma_update_step_consistent(
    d: Seq<TableM>,
    pending: Seq<EntryM>,
    table: Seq<u8>,
    set_column: Seq<u8>,
    value: ValueM,
    where_column: Seq<u8>,
    key: i64,
    n: int,
)
    requires
        reopen_consistent(d, pending),
        step_spec(d, StatementM::Update { table, set_column, value, where_column, key }, n) is Ok,
    ensures
        reopen_consistent(step_spec(d, StatementM::Update { table, set_column, value, where_column, key }, n)->Ok_0.0, pending),
{
    reveal(step_spec);
    match crate::statements::update_check(d, table, set_column, value, where_column, key) {
        Ok(Some((i, p, vs, es))) => {
            lemma_update_check_range(d, table, set_column, value, where_column, key);
            let t = d[i];
            lemma_table_consistent_of(d, pending, i);
            lemma_update_consistent(t, p, vs, es);
            let t2 = crate::rows::update_row_spec(t, p, vs, es)->Some_0;
            let old_es = expected_entries(t, row_at(t, p), p)->Some_0;
            let x1 = drop_entries(t.indexes, old_es, p as usize)->Some_0;
            lemma_drop_entries_shape(t.indexes, old_es, p as usize);
            lemma_add_entries_shape(x1, es, p as usize);
            assert forall|j: int| 0 <= j < t2.indexes.len() implies same_shape(#[trigger] t2.indexes[j], d[i].indexes[j]) by {
                assert(same_shape(t2.indexes[j], x1[j]));
                assert(same_shape(x1[j], t.indexes[j]));
            }
            lemma_replace_table(d, pending, i, t2);
        },
        _ => {},
    }
}

proof fn lemma_update_check_range(
    d: Seq<TableM>,
    table: Seq<u8>,
    set_column: Seq<u8>,
    value: ValueM,
    where_column: Seq<u8>,
    key: i64,
)
    ensures
        crate::statements::update_check(d, table, set_column, value, where_column, key) matches Ok(Some((i, p, vs, es)))
            ==> 0 <= i < d.len() && expected_entries(d[i], vs, p) == Some(es) && live(d[i], p),
{
    reveal(crate::statements::update_check);
    crate::schema::lemma_find_table(d, table);
}

proof fn lemma_delete_step_consistent(d: Seq<TableM>, pending: Seq<EntryM>, table: Seq<u8>, where_column: Seq<u8>, key: i64, n: int)
    requires
        reopen_consistent(d, pending),
        step_spec(d, StatementM::Delete { table, where_column, key }, n) is Ok,
    ensures
        reopen_consistent(step_spec(d, StatementM::Delete { table, where_column, key }, n)->Ok_0.0, pending),
{
    reveal(step_spec);
    reveal(crate::statements::delete_check);
    match crate::statements::delete_check(d, table, where_column, key) {
        Ok(Some((i, p))) => {
            crate::schema::lemma_find_table(d, table);
            let t = d[i];
            lemma_table_consistent_of(d, pending, i);
            lemma_delete_consistent(t, p);
            let t2 = crate::rows::delete_row_spec(t, p)->Some_0;
            let old_es = expected_entries(t, row_at(t, p), p)->Some_0;
            lemma_drop_entries_shape(t.indexes, old_es, p as usize);
            lemma_replace_table(d, pending, i, t2);
        },
        _ => {},
    }
}

proof fn lemma_create_index_step_consistent(
    d: Seq<TableM>,
    pending: Seq<EntryM>,
    index: Seq<u8>,
    table: Seq<u8>,
    column: Seq<u8>,
    n: int,
)
    requires
        reopen_consistent(d, pending),
        crate::persist::pending_below(pending, n),
        0 <= n <= u64::MAX,
        step_spec(d, StatementM::CreateIndex { index, table, column }, n) is Ok,
    ensures
        reopen_consistent(step_spec(d, StatementM::CreateIndex { index, table, column }, n)->Ok_0.0, pending),
{
    let bid = n as u64;
    crate::persist::lemma_create_index_step(d, index, table, column, n);
    crate::persist::lemma_create_index_outcome(d, bid, index, table, column);
    crate::persist::lemma_index_check_facts(d, bid, index, table, column);
    let (i, c, mode, es) = crate::statements::create_index_check(d, bid, index, table, column)->Ok_0;
    let t = d[i];
    lemma_table_consistent_of(d, pending, i);
    let m = fill_entries(Map::empty(), es)->Some_0;
    assert forall|j: int| 0 <= j < t.indexes.len() implies !same_name(#[trigger] t.indexes[j].name, index) by {
        if same_name(t.indexes[j].name, index) {
            assert(crate::schema::has_index_named(d, index));
        }
    }
    lemma_new_index_consistent(t, bid, index, c, mode, es, m);
    let t2 = crate::statements::with_new_index(t, bid, index, c, mode, m);
    lemma_add_index(d, pending, i, t2, n);
}

/// Every statement that succeeds keeps what a reopen checks.
pub proof fn lemma_step_consistent(d: Seq<TableM>, pending: Seq<EntryM>, st: StatementM, n: int)
    requires
        reopen_consistent(d, pending),
        crate::persist::pending_below(pending, n),
        0 <= n <= u64::MAX,
        step_spec(d, st, n) is Ok,
    ensures
        reopen_consistent(step_spec(d, st, n)->Ok_0.0, pending),
{
    match st {
        StatementM::CreateTable { table, columns } => {
            reveal(step_spec);
            lemma_push_table(d, pending, crate::statements::new_table(table, columns));
        },
        StatementM::Insert { table, values } => lemma_insert_step_consistent(d, pending, table, values, n),
        StatementM::Update { table, set_column, value, where_column, key } => lemma_update_step_consistent(
            d,
            pending,
            table,
            set_column,
            value,
            where_column,
            key,
            n,
        ),
        StatementM::Delete { table, where_column, key } => lemma_delete_step_consistent(d, pending, table, where_column, key, n),
        StatementM::CreateIndex { index, table, column } => lemma_create_index_step_consistent(
            d,
            pending,
            index,
            table,
            column,
            n,
        ),
        _ => {
            reveal(step_spec);
        },
    }
}

} // verus!
