//! Ordered in-memory indexes over row positions.
//!
//! `PrimaryIndex` maps a primary key to the position of its row.
//! `SecondaryIndex` maps an (indexed key, tie break) pair to a row position,
//! and answers equality and inclusive range lookups in key order.
use std::collections::BTreeMap;
use vstd::prelude::*;
use vstd::std_specs::btree::spec_btree_map_iter;
use vstd::std_specs::iter::IteratorSpec;
use vstd::std_specs::cmp::OrdSpec;

verus! {

broadcast use vstd::std_specs::btree::group_btree_axioms;

/// A sequence of keys that is strictly increasing.
pub open spec fn strictly_increasing(ks: Seq<i64>) -> bool {
    forall|i: int, j: int| 0 <= i < j < ks.len() ==> ks[i] < ks[j]
}

/// Lexicographic order on (indexed key, tie break) pairs.
pub open spec fn pair_lt(a: (i64, i64), b: (i64, i64)) -> bool {
    a.0 < b.0 || (a.0 == b.0 && a.1 < b.1)
}

/// A sequence of pairs that is strictly increasing in lexicographic order.
pub open spec fn pairs_strictly_increasing(ks: Seq<(i64, i64)>) -> bool {
    forall|i: int, j: int| 0 <= i < j < ks.len() ==> pair_lt(ks[i], ks[j])
}

/// `out` lists the positions of `m` ordered by ascending key.
pub open spec fn positions_in_key_order(m: Map<i64, usize>, out: Seq<usize>) -> bool {
    exists|ks: Seq<i64>|
        {
            &&& strictly_increasing(ks)
            &&& #[trigger] ks.to_set() == m.dom()
            &&& out == ks.map_values(|k: i64| m[k])
        }
}

/// The entry keys whose indexed key lies in `low..=high`.
pub open spec fn in_key_window(k: (i64, i64), low: i64, high: i64) -> bool {
    low <= k.0 && k.0 <= high
}

/// `out` lists the positions of the entries of `m` whose indexed key lies in
/// `low..=high`, ordered by (indexed key, tie break).
pub open spec fn window_positions(
    m: Map<(i64, i64), usize>,
    low: i64,
    high: i64,
    out: Seq<usize>,
) -> bool {
    exists|ks: Seq<(i64, i64)>|
        {
            &&& pairs_strictly_increasing(ks)
            &&& #[trigger] ks.to_set() == m.dom().filter(|k: (i64, i64)| in_key_window(k, low, high))
            &&& out == ks.map_values(|k: (i64, i64)| m[k])
        }
}

/// The positions of `m` ordered by ascending key.
pub open spec fn key_order(m: Map<i64, usize>) -> Seq<usize> {
    choose|out: Seq<usize>| positions_in_key_order(m, out)
}

/// The positions of the entries of `m` whose indexed key lies in
/// `low..=high`, ordered by (indexed key, tie break).
pub open spec fn window_order(m: Map<(i64, i64), usize>, low: i64, high: i64) -> Seq<usize> {
    choose|out: Seq<usize>| window_positions(m, low, high, out)
}

/// Two strictly increasing sequences with the same elements are equal.
pub proof fn lemma_sorted_unique(a: Seq<i64>, b: Seq<i64>)
    requires
        strictly_increasing(a),
        strictly_increasing(b),
        a.to_set() == b.to_set(),
    ensures
        a == b,
    decreases a.len(),
{
    if a.len() == 0 || b.len() == 0 {
        if b.len() > 0 {
            assert(b.to_set().contains(b[0]));
            assert(!a.to_set().contains(b[0]));
        }
        if a.len() > 0 {
            assert(a.to_set().contains(a[0]));
            assert(!b.to_set().contains(a[0]));
        }
        assert(a =~= b);
    } else {
        assert(a.to_set().contains(a[0]));
        assert(b.to_set().contains(a[0]));
        let j = choose|j: int| 0 <= j < b.len() && b[j] == a[0];
        assert(b.to_set().contains(b[0]));
        assert(a.to_set().contains(b[0]));
        let i = choose|i: int| 0 <= i < a.len() && a[i] == b[0];
        assert(a[0] == b[0]) by {
            if j > 0 {
                assert(b[0] < b[j]);
            }
            if i > 0 {
                assert(a[0] < a[i]);
            }
        }
        let a1 = a.drop_first();
        let b1 = b.drop_first();
        assert forall|x: i64| a1.to_set().contains(x) <==> b1.to_set().contains(x) by {
            if a1.to_set().contains(x) {
                let k = choose|k: int| 0 <= k < a1.len() && a1[k] == x;
                assert(a.to_set().contains(x));
                assert(a[0] < a[k + 1]);
                let q = choose|q: int| 0 <= q < b.len() && b[q] == x;
                assert(q != 0);
                assert(b1[q - 1] == x);
            }
            if b1.to_set().contains(x) {
                let k = choose|k: int| 0 <= k < b1.len() && b1[k] == x;
                assert(b.to_set().contains(x));
                assert(b[0] < b[k + 1]);
                let q = choose|q: int| 0 <= q < a.len() && a[q] == x;
                assert(q != 0);
                assert(a1[q - 1] == x);
            }
        }
        assert(a1.to_set() =~= b1.to_set());
        lemma_sorted_unique(a1, b1);
        assert(a.len() == b.len());
        assert forall|k: int| 0 <= k < a.len() implies a[k] == b[k] by {
            if k > 0 {
                assert(a[k] == a1[k - 1]);
                assert(b[k] == b1[k - 1]);
            }
        }
        assert(a =~= b);
    }
}

/// Two lexicographically increasing sequences of pairs with the same
/// elements are equal.
pub proof fn lemma_sorted_pairs_unique(a: Seq<(i64, i64)>, b: Seq<(i64, i64)>)
    requires
        pairs_strictly_increasing(a),
        pairs_strictly_increasing(b),
        a.to_set() == b.to_set(),
    ensures
        a == b,
    decreases a.len(),
{
    if a.len() == 0 || b.len() == 0 {
        if b.len() > 0 {
            assert(b.to_set().contains(b[0]));
            assert(!a.to_set().contains(b[0]));
        }
        if a.len() > 0 {
            assert(a.to_set().contains(a[0]));
            assert(!b.to_set().contains(a[0]));
        }
        assert(a =~= b);
    } else {
        assert(a.to_set().contains(a[0]));
        assert(b.to_set().contains(a[0]));
        let j = choose|j: int| 0 <= j < b.len() && b[j] == a[0];
        assert(b.to_set().contains(b[0]));
        assert(a.to_set().contains(b[0]));
        let i = choose|i: int| 0 <= i < a.len() && a[i] == b[0];
        assert(a[0] == b[0]) by {
            if j > 0 {
                assert(pair_lt(b[0], b[j]));
            }
            if i > 0 {
                assert(pair_lt(a[0], a[i]));
            }
        }
        let a1 = a.drop_first();
        let b1 = b.drop_first();
        assert forall|x: (i64, i64)| a1.to_set().contains(x) <==> b1.to_set().contains(x) by {
            if a1.to_set().contains(x) {
                let k = choose|k: int| 0 <= k < a1.len() && a1[k] == x;
                assert(a.to_set().contains(x));
                assert(pair_lt(a[0], a[k + 1]));
                let q = choose|q: int| 0 <= q < b.len() && b[q] == x;
                assert(q != 0);
                assert(b1[q - 1] == x);
            }
            if b1.to_set().contains(x) {
                let k = choose|k: int| 0 <= k < b1.len() && b1[k] == x;
                assert(b.to_set().contains(x));
                assert(pair_lt(b[0], b[k + 1]));
                let q = choose|q: int| 0 <= q < a.len() && a[q] == x;
                assert(q != 0);
                assert(a1[q - 1] == x);
            }
        }
        assert(a1.to_set() =~= b1.to_set());
        lemma_sorted_pairs_unique(a1, b1);
        assert(a.len() == b.len());
        assert forall|k: int| 0 <= k < a.len() implies a[k] == b[k] by {
            if k > 0 {
                assert(a[k] == a1[k - 1]);
                assert(b[k] == b1[k - 1]);
            }
        }
        assert(a =~= b);
    }
}

/// Ordering the positions of a primary index by key has exactly one outcome.
pub proof fn lemma_key_order_unique(m: Map<i64, usize>, out: Seq<usize>)
    requires
        positions_in_key_order(m, out),
    ensures
        out == key_order(m),
{
    let other = key_order(m);
    assert(positions_in_key_order(m, other));
    let ks = choose|ks: Seq<i64>| strictly_increasing(ks) && #[trigger] ks.to_set() == m.dom() && out == ks.map_values(|k: i64| m[k]);
    let ks2 = choose|ks: Seq<i64>| strictly_increasing(ks) && #[trigger] ks.to_set() == m.dom() && other == ks.map_values(|k: i64| m[k]);
    lemma_sorted_unique(ks, ks2);
}

/// Listing a key window of a secondary index in key order has exactly one
/// outcome.
pub proof fn lemma_window_order_unique(m: Map<(i64, i64), usize>, low: i64, high: i64, out: Seq<usize>)
    requires
        window_positions(m, low, high, out),
    ensures
        out == window_order(m, low, high),
{
    let other = window_order(m, low, high);
    assert(window_positions(m, low, high, other));
    let ks = choose|ks: Seq<(i64, i64)>| pairs_strictly_increasing(ks) && #[trigger] ks.to_set() == m.dom().filter(|k: (i64, i64)| in_key_window(k, low, high)) && out == ks.map_values(|k: (i64, i64)| m[k]);
    let ks2 = choose|ks: Seq<(i64, i64)>| pairs_strictly_increasing(ks) && #[trigger] ks.to_set() == m.dom().filter(|k: (i64, i64)| in_key_window(k, low, high)) && other == ks.map_values(|k: (i64, i64)| m[k]);
    lemma_sorted_pairs_unique(ks, ks2);
}

/// The order in which a `BTreeMap` with `i64` keys yields its keys is strictly
/// increasing.
proof fn lemma_increasing_keys(km: Seq<i64>)
    requires
        vstd::std_specs::btree::increasing_seq(km),
    ensures
        strictly_increasing(km),
{
    assert(vstd::laws_cmp::obeys_cmp::<i64>());
    assert forall|i: int, j: int| 0 <= i < j < km.len() implies km[i] < km[j] by {
        assert(km[i].cmp_spec(&km[j]) is Less);
    }
}

/// `BTreeMap::range` over `(low, i64::MIN)..=(high, i64::MAX)`, each entry
/// taken to its position. As std documents `range`, it yields the entries
/// whose key lies in those bounds, in ascending key order; under the
/// lexicographic order of pairs those are the keys whose first part lies in
/// `low..=high`. `range` panics when the start bound exceeds the end bound,
/// which `low <= high` rules out.
#[verifier::external_body]
fn btree_window(map: &BTreeMap<(i64, i64), usize>, low: i64, high: i64) -> (result: Vec<usize>)
    requires
        low <= high,
    ensures
        window_positions(map@, low, high, result@),
{
    map.range((low, i64::MIN)..=(high, i64::MAX)).map(|(_, position)| *position).collect()
}

/// Maps each primary key to the position of its row.
pub struct PrimaryIndex {
    positions_by_key: BTreeMap<i64, usize>,
}

/// Returned when a primary key is inserted twice.
#[derive(Debug, Clone, Copy, PartialEq, Eq, Structural)]
pub struct DuplicatePrimaryKey;

impl View for PrimaryIndex {
    type V = Map<i64, usize>;

    closed spec fn view(&self) -> Map<i64, usize> {
        self.positions_by_key@
    }
}

impl PrimaryIndex {
    /// An index with no keys.
    pub fn new() -> (index: Self)
        ensures
            index@ == Map::<i64, usize>::empty(),
    {
        PrimaryIndex { positions_by_key: BTreeMap::new() }
    }

    /// Adds `key`; a key that is already present is refused and the index
    /// is left unchanged.
    pub fn insert(&mut self, key: i64, row_position: usize) -> (result: Result<(), DuplicatePrimaryKey>)
        ensures
            old(self)@.contains_key(key) <==> result is Err,
            result is Err ==> final(self)@ == old(self)@,
            result is Ok ==> final(self)@ == old(self)@.insert(key, row_position),
    {
        if self.positions_by_key.contains_key(&key) {
            return Err(DuplicatePrimaryKey);
        }
        self.positions_by_key.insert(key, row_position);
        Ok(())
    }

    /// The position stored for `key`, if any.
    pub fn get(&self, key: i64) -> (result: Option<usize>)
        ensures
            result == (if self@.contains_key(key) { Some(self@[key]) } else { None::<usize> }),
    {
        match self.positions_by_key.get(&key) {
            Some(position) => Some(*position),
            None => None,
        }
    }

    /// Removes `key` and returns the position it held.
    pub fn remove(&mut self, key: i64) -> (result: Option<usize>)
        ensures
            result == (if old(self)@.contains_key(key) { Some(old(self)@[key]) } else { None::<usize> }),
            final(self)@ == old(self)@.remove(key),
    {
        self.positions_by_key.remove(&key)
    }

    /// All positions, ordered by ascending key.
    pub fn ordered_positions(&self) -> (result: Vec<usize>)
        ensures
            positions_in_key_order(self@, result@),
    {
        let mut result: Vec<usize> = Vec::new();
        let ghost mut ks: Seq<i64> = Seq::empty();
        let ghost v = spec_btree_map_iter(&self.positions_by_key).remaining();
        for kv in it: self.positions_by_key.iter()
            invariant
                it.seq() == v,
                ks.len() == it.index(),
                result@.len() == it.index(),
                forall|i: int| 0 <= i < ks.len() ==> ks[i] == *it.seq()[i].0,
                forall|i: int| 0 <= i < ks.len() ==> result@[i] == self@[ks[i]],
        {
            proof {
                ks = ks.push(*kv.0);
            }
            result.push(*kv.1);
        }
        proof {
            let m = self@;
            assert(ks.len() == v.len());
            let km = v.map_values(|kv: (&i64, &usize)| *kv.0);
            lemma_increasing_keys(km);
            assert(km =~= ks);
            assert(strictly_increasing(ks));
            assert forall|k: i64| ks.to_set().contains(k) <==> m.dom().contains(k) by {
                if m.dom().contains(k) {
                    assert(v.contains((&k, &m[k])));
                    let i = choose|i: int| 0 <= i < v.len() && v[i] == (&k, &m[k]);
                    assert(ks[i] == k);
                }
                if ks.to_set().contains(k) {
                    let i = choose|i: int| 0 <= i < ks.len() && ks[i] == k;
                    assert(m.contains_key(*v[i].0));
                }
            }
            assert(ks.to_set() =~= m.dom());
            assert(result@ =~= ks.map_values(|k: i64| m[k]));
        }
        result
    }

    /// Number of keys.
    pub fn len(&self) -> (n: usize)
        ensures
            n == self@.len(),
    {
        self.positions_by_key.len()
    }

    /// Whether there are no keys.
    pub fn is_empty(&self) -> (b: bool)
        ensures
            b == (self@.len() == 0),
    {
        self.positions_by_key.is_empty()
    }
}


/// Maps each (indexed key, tie break) pair to a row position.
pub struct SecondaryIndex {
    positions_by_key_and_tie_break: BTreeMap<(i64, i64), usize>,
}

/// Returned when an (indexed key, tie break) pair is inserted twice.
#[derive(Debug, Clone, Copy, PartialEq, Eq, Structural)]
pub struct DuplicateSecondaryIndexEntry;

impl View for SecondaryIndex {
    type V = Map<(i64, i64), usize>;

    closed spec fn view(&self) -> Map<(i64, i64), usize> {
        self.positions_by_key_and_tie_break@
    }
}

impl SecondaryIndex {
    /// An index with no entries.
    pub fn new() -> (index: Self)
        ensures
            index@ == Map::<(i64, i64), usize>::empty(),
    {
        SecondaryIndex { positions_by_key_and_tie_break: BTreeMap::new() }
    }

    /// Adds the entry `(key, tie_break) -> row_position`; an entry whose pair
    /// is already present is refused and the index is left unchanged.
    pub fn insert(&mut self, key: i64, tie_break: i64, row_position: usize) -> (result: Result<
        (),
        DuplicateSecondaryIndexEntry,
    >)
        ensures
            old(self)@.contains_key((key, tie_break)) <==> result is Err,
            result is Err ==> final(self)@ == old(self)@,
            result is Ok ==> final(self)@ == old(self)@.insert((key, tie_break), row_position),
    {
        let entry_key = (key, tie_break);
        if self.positions_by_key_and_tie_break.contains_key(&entry_key) {
            return Err(DuplicateSecondaryIndexEntry);
        }
        self.positions_by_key_and_tie_break.insert(entry_key, row_position);
        Ok(())
    }

    /// Positions of the entries whose indexed key is `key`, ordered by tie break.
    pub fn equality_positions(&self, key: i64) -> (result: Vec<usize>)
        ensures
            window_positions(self@, key, key, result@),
    {
        btree_window(&self.positions_by_key_and_tie_break, key, key)
    }

    /// Positions of the entries whose indexed key lies in `low..=high`,
    /// ordered by (indexed key, tie break); empty when `low > high`.
    pub fn range_positions(&self, low: i64, high: i64) -> (result: Vec<usize>)
        ensures
            window_positions(self@, low, high, result@),
            low > high ==> result@.len() == 0,
    {
        if low > high {
            let result: Vec<usize> = Vec::new();
            proof {
                let ks = Seq::<(i64, i64)>::empty();
                assert(ks.to_set() =~= self@.dom().filter(|k: (i64, i64)| in_key_window(k, low, high)));
                assert(result@ =~= ks.map_values(|k: (i64, i64)| self@[k]));
            }
            return result;
        }
        btree_window(&self.positions_by_key_and_tie_break, low, high)
    }

    /// Removes the entry for `(key, tie_break)` and returns its position.
    pub fn remove(&mut self, key: i64, tie_break: i64) -> (result: Option<usize>)
        ensures
            result == (if old(self)@.contains_key((key, tie_break)) {
                Some(old(self)@[(key, tie_break)])
            } else {
                None::<usize>
            }),
            final(self)@ == old(self)@.remove((key, tie_break)),
    {
        self.positions_by_key_and_tie_break.remove(&(key, tie_break))
    }

    /// Number of entries.
    pub fn len(&self) -> (n: usize)
        ensures
            n == self@.len(),
    {
        self.positions_by_key_and_tie_break.len()
    }

    /// Whether both indexes hold exactly the same entries.
    pub fn same_entries(&self, other: &SecondaryIndex) -> (r: bool)
        ensures
            r == (self@ == other@),
    {
        if self.positions_by_key_and_tie_break.len() != other.positions_by_key_and_tie_break.len() {
            return false;
        }
        let ghost v = spec_btree_map_iter(&self.positions_by_key_and_tie_break).remaining();
        let ghost m = self@;
        let ghost o = other@;
        for kv in it: self.positions_by_key_and_tie_break.iter()
            invariant
                it.seq() == v,
                m == self@,
                o == other@,
                m.len() == o.len(),
                forall|i: int| #![trigger v[i]] 0 <= i < v.len() ==> m.contains_key(*v[i].0) && m[*v[i].0] == *v[i].1,
                forall|i: int| #![trigger v[i]] 0 <= i < it.index() ==> o.contains_key(*v[i].0) && o[*v[i].0] == *v[i].1,
        {
            match other.positions_by_key_and_tie_break.get(kv.0) {
                Some(p) => {
                    if *p != *kv.1 {
                        assert(o[*kv.0] != m[*kv.0]);
                        return false;
                    }
                },
                None => {
                    assert(!o.contains_key(*kv.0) && m.contains_key(*kv.0));
                    return false;
                },
            }
        }
        proof {
            assert forall|k: (i64, i64)| m.dom().contains(k) implies o.dom().contains(k) && o[k] == m[k] by {
                assert(v.contains((&k, &m[k])));
                let t = choose|t: int| 0 <= t < v.len() && v[t] == (&k, &m[k]);
                assert(o.contains_key(*v[t].0));
            }
            vstd::set_lib::lemma_subset_equality(m.dom(), o.dom());
            assert(m =~= o);
        }
        true
    }
}

} // verus!
