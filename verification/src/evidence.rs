//! The benchmark's evidence: what one run measured, the per-query proofs
//! that the indexed queries used the index, the verdict of each hard-fail
//! check, and the JSON document that records them.
//!
//! Durations are counted in billionths of a millisecond (picoseconds), so
//! that every value the document prints with nine decimals is exact.
use crate::bench::{find, find_bytes, find_from, lemma_find_from, BenchError};
use crate::bytes::push_all;
use crate::fixed::{fixed3, fixed9, push_count, push_fixed3, push_fixed9};
use crate::sql::{QueryPath, QueryPathM};
use crate::text::digits_of;
use crate::workload::{
    equality_key_of, equality_keys, fnv_hash, lookup_id_of, primary_key_lookup_ids, range_low_of, range_windows,
    rows_counted, count_rows, stable_hash,
};
use vstd::prelude::*;
use vstd::relations::{sorted_by, total_ordering};
use vstd::string::*;
use vstd::utf8::encode_utf8;

verus! {

broadcast use vstd::seq_lib::group_to_multiset_ensures;

/// What loading the measured table took and left behind.
pub struct SetupEvidence {
    /// Time of the sequential inserts, at least one millisecond.
    pub sequential_insert_elapsed_ms: u64,
    /// Rows per second, in billionths.
    pub insert_throughput_rows_per_sec: u64,
    pub db_file_bytes: u64,
    pub wal_file_bytes: u64,
}

/// What the recovery measurement saw.
pub struct RecoveryEvidence {
    pub committed_transaction_count: u64,
    pub wal_replay_applied_records: u64,
    pub wal_file_bytes: u64,
    pub recovery_ms: u64,
    pub recovered_row_count: u64,
    pub representative_id: u64,
    pub representative_group_key: u64,
    pub representative_payload: Vec<u8>,
    pub representative_matched: bool,
}

/// The proof that one indexed query used the index and agreed with the
/// explicit scan.
pub struct IndexProof {
    pub query_kind: &'static str,
    pub predicate: Vec<u8>,
    pub expected_access_path: &'static str,
    pub observed_access_path: &'static str,
    pub used_index: Vec<u8>,
    pub scan_rejected: bool,
    pub indexed_result_count: usize,
    pub scan_result_count: usize,
    pub indexed_result_hash: u64,
    pub scan_result_hash: u64,
    pub result_hash_match: bool,
}

/// The model of an `IndexProof`.
pub struct ProofM {
    pub query_kind: Seq<u8>,
    pub predicate: Seq<u8>,
    pub expected_access_path: Seq<u8>,
    pub observed_access_path: Seq<u8>,
    pub used_index: Seq<u8>,
    pub scan_rejected: bool,
    pub indexed_result_count: int,
    pub scan_result_count: int,
    pub indexed_result_hash: u64,
    pub scan_result_hash: u64,
    pub result_hash_match: bool,
}

impl View for IndexProof {
    type V = ProofM;

    open spec fn view(&self) -> ProofM {
        ProofM {
            query_kind: self.query_kind.spec_bytes(),
            predicate: self.predicate@,
            expected_access_path: self.expected_access_path.spec_bytes(),
            observed_access_path: self.observed_access_path.spec_bytes(),
            used_index: self.used_index@,
            scan_rejected: self.scan_rejected,
            indexed_result_count: self.indexed_result_count as int,
            scan_result_count: self.scan_result_count as int,
            indexed_result_hash: self.indexed_result_hash,
            scan_result_hash: self.scan_result_hash,
            result_hash_match: self.result_hash_match,
        }
    }
}

/// The models of a list of proofs.
pub open spec fn proofs_view(ps: Seq<IndexProof>) -> Seq<ProofM> {
    ps.map_values(|p: IndexProof| p@)
}

/// Everything one benchmark run measured; per-query times are averages
/// over a batch, one per measured run.
pub struct BenchRun {
    pub setup: SetupEvidence,
    pub primary_key_ms: Vec<u64>,
    pub equality_indexed_ms: Vec<u64>,
    pub equality_scan_ms: Vec<u64>,
    pub range_indexed_ms: Vec<u64>,
    pub range_scan_ms: Vec<u64>,
    pub equality_proofs: Vec<IndexProof>,
    pub range_proofs: Vec<IndexProof>,
    pub recovery: RecoveryEvidence,
    pub runtime_ms: u64,
}

/// Each timing list of the run holds at least one value.
pub open spec fn timings_present(run: &BenchRun) -> bool {
    &&& run.primary_key_ms@.len() > 0
    &&& run.equality_indexed_ms@.len() > 0
    &&& run.equality_scan_ms@.len() > 0
    &&& run.range_indexed_ms@.len() > 0
    &&& run.range_scan_ms@.len() > 0
}

// ---------------------------------------------------------------- medians

/// `<=` on `u64`.
pub open spec fn u64_leq() -> spec_fn(u64, u64) -> bool {
    |a: u64, b: u64| a <= b
}

/// The values in ascending order.
pub open spec fn ascending(s: Seq<u64>) -> Seq<u64> {
    s.sort_by(u64_leq())
}

/// The middle value of the sorted values (the upper middle for
/// an even count).
pub open spec fn median_of(s: Seq<u64>) -> u64 {
    ascending(s)[(s.len() / 2) as int]
}

proof fn lemma_leq_total()
    ensures
        total_ordering(u64_leq()),
{
    let r = u64_leq();
    assert(vstd::relations::reflexive(r));
    assert(vstd::relations::antisymmetric(r));
    assert(vstd::relations::transitive(r));
    assert(vstd::relations::strongly_connected(r));
}

/// The middle value of the sorted values.
pub fn median(values: &Vec<u64>) -> (m: u64)
    requires
        values@.len() > 0,
    ensures
        m == median_of(values@),
{
    let ghost leq = u64_leq();
    let mut sorted: Vec<u64> = Vec::new();
    let n = values.len();
    let mut k: usize = 0;
    assert(values@.subrange(0, 0) =~= Seq::<u64>::empty());
    while k < n
        invariant
            n == values@.len(),
            k <= n,
            leq == u64_leq(),
            sorted_by(sorted@, leq),
            sorted@.to_multiset() == values@.subrange(0, k as int).to_multiset(),
            sorted@.len() == k,
        decreases n - k,
    {
        let x = values[k];
        let mut p: usize = 0;
        while p < sorted.len() && sorted[p] <= x
            invariant
                p <= sorted@.len(),
                forall|q: int| 0 <= q < p ==> sorted@[q] <= x,
            decreases sorted@.len() - p,
        {
            p = p + 1;
        }
        let ghost before = sorted@;
        sorted.insert(p, x);
        proof {
            assert(sorted@ == before.insert(p as int, x));
            assert forall|i: int, j: int| 0 <= i < j < sorted@.len() implies #[trigger] leq(sorted@[i], sorted@[j]) by {
                if j < p {
                    assert(leq(before[i], before[j]));
                } else if j == p {
                    assert(sorted@[i] == before[i]);
                } else if i < p {
                    assert(sorted@[j] == before[j - 1]);
                    if p < before.len() {
                        assert(leq(before[i], before[j - 1]) || i == j - 1);
                    }
                } else if i == p {
                    assert(sorted@[j] == before[j - 1]);
                    assert(!(before[p as int] <= x));
                    if j - 1 > p {
                        assert(leq(before[p as int], before[j - 1]));
                    }
                } else {
                    assert(leq(before[i - 1], before[j - 1]));
                }
            }
            assert(values@.subrange(0, k + 1) =~= values@.subrange(0, k as int).push(x));
        }
        k = k + 1;
    }
    proof {
        assert(values@.subrange(0, n as int) =~= values@);
        lemma_leq_total();
        values@.lemma_sort_by_ensures(leq);
        vstd::seq_lib::lemma_sorted_unique(sorted@, values@.sort_by(leq), leq);
    }
    sorted[n / 2]
}

/// `scan / indexed` in billionths, as far as a `u64` holds it; an indexed
/// time of zero counts as an unbounded speedup.
pub open spec fn speedup_of(scan: u64, indexed: u64) -> u64 {
    if indexed == 0 || (scan * 1000000000) / (indexed as int) > u64::MAX {
        u64::MAX
    } else {
        ((scan * 1000000000) / (indexed as int)) as u64
    }
}

fn speedup(scan: u64, indexed: u64) -> (r: u64)
    ensures
        r == speedup_of(scan, indexed),
{
    if indexed == 0 {
        return u64::MAX;
    }
    let q = (scan as u128 * 1000000000) / indexed as u128;
    if q > u64::MAX as u128 {
        u64::MAX
    } else {
        q as u64
    }
}

// ---------------------------------------------------------------- proofs

/// `str::split(pat).nth(1)`: the text between the first and the second
/// occurrence of `pat`, or to the end.
pub open spec fn second_piece(q: Seq<u8>, pat: Seq<u8>) -> Option<Seq<u8>> {
    match find(q, pat) {
        None => None,
        Some(p) => {
            let rest = q.subrange(p + pat.len(), q.len() as int);
            match find(rest, pat) {
                None => Some(rest),
                Some(e) => Some(rest.subrange(0, e)),
            }
        },
    }
}

/// `strip_suffix(';')`.
pub open spec fn strip_semicolon(t: Seq<u8>) -> Option<Seq<u8>> {
    if t.len() > 0 && t.last() == 59u8 {
        Some(t.drop_last())
    } else {
        None
    }
}

/// The predicate an equality proof records: `group_key = ` and the key
/// that follows it in the query, before its `;`.
pub open spec fn equality_predicate(q: Seq<u8>) -> Option<Seq<u8>> {
    match second_piece(q, "group_key = ".spec_bytes()) {
        None => None,
        Some(t) => match strip_semicolon(t) {
            None => None,
            Some(key) => Some("group_key = ".spec_bytes() + key),
        },
    }
}

/// The predicate a range proof records: what follows `WHERE ` in the
/// query, before its `;`.
pub open spec fn range_predicate(q: Seq<u8>) -> Option<Seq<u8>> {
    match second_piece(q, "WHERE ".spec_bytes()) {
        None => None,
        Some(t) => strip_semicolon(t),
    }
}

/// The proof for one query, given its predicate, both outputs and the
/// planned path; `equality` picks the kind.
pub open spec fn proof_of(
    equality: bool,
    predicate: Seq<u8>,
    indexed: Seq<u8>,
    scan: Seq<u8>,
    path: QueryPathM,
) -> ProofM {
    let (observed, used) = if equality {
        match path {
            QueryPathM::SecondaryIndexEquality { index, .. } => ("secondary_index_equality".spec_bytes(), index),
            _ => ("full_scan".spec_bytes(), Seq::empty()),
        }
    } else {
        match path {
            QueryPathM::SecondaryIndexRange { index, .. } => ("secondary_index_range".spec_bytes(), index),
            _ => ("full_scan".spec_bytes(), Seq::empty()),
        }
    };
    ProofM {
        query_kind: if equality {
            "secondary_equality".spec_bytes()
        } else {
            "secondary_range".spec_bytes()
        },
        predicate,
        expected_access_path: if equality {
            "secondary_index_equality".spec_bytes()
        } else {
            "secondary_index_range".spec_bytes()
        },
        observed_access_path: observed,
        used_index: used,
        scan_rejected: true,
        indexed_result_count: rows_counted(indexed),
        scan_result_count: rows_counted(scan),
        indexed_result_hash: fnv_hash(indexed),
        scan_result_hash: fnv_hash(scan),
        result_hash_match: indexed == scan,
    }
}

/// The bytes of a query text.
pub open spec fn query_bytes(q: String) -> Seq<u8> {
    encode_utf8(q@)
}

/// The proofs for the first `k` queries, or the error of the first query
/// whose text does not carry its predicate.
pub open spec fn proofs_spec(
    equality: bool,
    queries: Seq<String>,
    indexed: Seq<Vec<u8>>,
    scans: Seq<Vec<u8>>,
    paths: Seq<QueryPath>,
    k: int,
) -> Result<Seq<ProofM>, (Seq<char>, Seq<char>)>
    decreases k,
{
    if k <= 0 {
        Ok(Seq::empty())
    } else {
        match proofs_spec(equality, queries, indexed, scans, paths, k - 1) {
            Err(e) => Err(e),
            Ok(ps) => {
                let q = query_bytes(queries[k - 1]);
                let pred = if equality {
                    equality_predicate(q)
                } else {
                    range_predicate(q)
                };
                match pred {
                    None => Err(
                        (
                            "index_use_evidence"@,
                            if equality {
                                "invalid equality query"@
                            } else {
                                "invalid range query"@
                            },
                        ),
                    ),
                    Some(p) => Ok(ps.push(proof_of(equality, p, indexed[k - 1]@, scans[k - 1]@, paths[k - 1]@))),
                }
            },
        }
    }
}

/// The number of items `zip` pairs up.
pub open spec fn zipped_len(a: int, b: int, c: int, d: int) -> int {
    let ab = if a < b {
        a
    } else {
        b
    };
    let cd = if c < d {
        c
    } else {
        d
    };
    if ab < cd {
        ab
    } else {
        cd
    }
}

fn piece_after(q: &[u8], pat: &[u8]) -> (r: Option<Vec<u8>>)
    ensures
        match second_piece(q@, pat@) {
            None => r is None,
            Some(t) => r matches Some(v) && v@ == t,
        },
{
    proof {
        lemma_find_from(q@, pat@, 0);
    }
    let p = match find_bytes(q, pat, 0) {
        None => {
            return None;
        },
        Some(p) => p,
    };
    let plen = pat.len();
    let qlen = q.len();
    assert(p + plen <= qlen);
    let start = p + plen;
    let rest = crate::bytes::copy_range(q, start, q.len());
    proof {
        lemma_find_from(rest@, pat@, 0);
    }
    match find_bytes(rest.as_slice(), pat, 0) {
        None => Some(rest),
        Some(e) => Some(crate::bytes::copy_range(rest.as_slice(), 0, e)),
    }
}

fn strip_semicolon_exec(t: Vec<u8>) -> (r: Option<Vec<u8>>)
    ensures
        match strip_semicolon(t@) {
            None => r is None,
            Some(s) => r matches Some(v) && v@ == s,
        },
{
    let n = t.len();
    if n > 0 && t[n - 1] == 59u8 {
        Some(crate::bytes::copy_range(t.as_slice(), 0, n - 1))
    } else {
        None
    }
}

/// The index-use proof of one equality or range query.
pub fn build_proof(
    equality: bool,
    query: &String,
    indexed: &Vec<u8>,
    scan: &Vec<u8>,
    path: &QueryPath,
) -> (r: Result<IndexProof, BenchError>)
    ensures
        match (if equality {
            equality_predicate(query_bytes(*query))
        } else {
            range_predicate(query_bytes(*query))
        }) {
            None => r matches Err(e) && e.model() == (
                "index_use_evidence"@,
                if equality {
                    "invalid equality query"@
                } else {
                    "invalid range query"@
                },
            ),
            Some(p) => r matches Ok(proof) && proof@ == proof_of(equality, p, indexed@, scan@, path@),
        },
{
    let q = query.as_str().as_bytes();
    assert(q@ == query_bytes(*query));
    let predicate = if equality {
        let key = match piece_after(q, "group_key = ".as_bytes()) {
            None => None,
            Some(t) => strip_semicolon_exec(t),
        };
        match key {
            None => None,
            Some(k) => {
                let mut p: Vec<u8> = Vec::new();
                push_all(&mut p, "group_key = ".as_bytes());
                push_all(&mut p, k.as_slice());
                assert(p@ =~= "group_key = ".spec_bytes() + k@);
                Some(p)
            },
        }
    } else {
        match piece_after(q, "WHERE ".as_bytes()) {
            None => None,
            Some(t) => strip_semicolon_exec(t),
        }
    };
    let predicate = match predicate {
        None => {
            let reason = if equality {
                String::from_str("invalid equality query")
            } else {
                String::from_str("invalid range query")
            };
            return Err(BenchError::new("index_use_evidence", reason));
        },
        Some(p) => p,
    };
    let (observed, used): (&'static str, Vec<u8>) = if equality {
        match path {
            QueryPath::SecondaryIndexEquality { index, .. } => (
                "secondary_index_equality",
                crate::engine::copy_bytes(index.as_slice()),
            ),
            _ => ("full_scan", Vec::new()),
        }
    } else {
        match path {
            QueryPath::SecondaryIndexRange { index, .. } => (
                "secondary_index_range",
                crate::engine::copy_bytes(index.as_slice()),
            ),
            _ => ("full_scan", Vec::new()),
        }
    };
    let proof = IndexProof {
        query_kind: if equality {
            "secondary_equality"
        } else {
            "secondary_range"
        },
        predicate,
        expected_access_path: if equality {
            "secondary_index_equality"
        } else {
            "secondary_index_range"
        },
        observed_access_path: observed,
        used_index: used,
        scan_rejected: true,
        indexed_result_count: count_rows(indexed.as_slice()),
        scan_result_count: count_rows(scan.as_slice()),
        indexed_result_hash: stable_hash(indexed.as_slice()),
        scan_result_hash: stable_hash(scan.as_slice()),
        result_hash_match: crate::text::bytes_eq(indexed.as_slice(), scan.as_slice()),
    };
    assert(proof@.used_index =~= proof_of(equality, predicate@, indexed@, scan@, path@).used_index);
    Ok(proof)
}

/// The index-use proofs of the equality or range queries: one per query,
/// as far as all four lists reach.
pub fn build_proofs(
    equality: bool,
    queries: &Vec<String>,
    indexed: &Vec<Vec<u8>>,
    scans: &Vec<Vec<u8>>,
    paths: &Vec<QueryPath>,
) -> (r: Result<Vec<IndexProof>, BenchError>)
    ensures
        match proofs_spec(
            equality,
            queries@,
            indexed@,
            scans@,
            paths@,
            zipped_len(queries@.len() as int, indexed@.len() as int, scans@.len() as int, paths@.len() as int),
        ) {
            Ok(ps) => r matches Ok(v) && proofs_view(v@) == ps,
            Err(e) => r matches Err(x) && x.model() == e,
        },
{
    let mut n = queries.len();
    if indexed.len() < n {
        n = indexed.len();
    }
    if scans.len() < n {
        n = scans.len();
    }
    if paths.len() < n {
        n = paths.len();
    }
    assert(n == zipped_len(queries@.len() as int, indexed@.len() as int, scans@.len() as int, paths@.len() as int));
    let mut out: Vec<IndexProof> = Vec::new();
    let mut k: usize = 0;
    assert(proofs_view(out@) =~= Seq::<ProofM>::empty());
    while k < n
        invariant
            k <= n,
            n <= queries@.len(),
            n <= indexed@.len(),
            n <= scans@.len(),
            n <= paths@.len(),
            n == zipped_len(queries@.len() as int, indexed@.len() as int, scans@.len() as int, paths@.len() as int),
            proofs_spec(equality, queries@, indexed@, scans@, paths@, k as int) == Ok::<
                Seq<ProofM>,
                (Seq<char>, Seq<char>),
            >(proofs_view(out@)),
        decreases n - k,
    {
        match build_proof(equality, &queries[k], &indexed[k], &scans[k], &paths[k]) {
            Err(e) => {
                proof {
                    let q = query_bytes(queries@[k as int]);
                    assert(queries@[k as int] == queries[k as int]);
                    assert(proofs_spec(equality, queries@, indexed@, scans@, paths@, k + 1) == Err::<
                        Seq<ProofM>,
                        (Seq<char>, Seq<char>),
                    >(e.model()));
                    lemma_proofs_err_stays(equality, queries@, indexed@, scans@, paths@, k as int + 1, n as int);
                }
                return Err(e);
            },
            Ok(p) => {
                let ghost before = out@;
                out.push(p);
                assert(proofs_view(out@) =~= proofs_view(before).push(p@));
            },
        }
        k = k + 1;
    }
    Ok(out)
}

proof fn lemma_proofs_err_stays(
    equality: bool,
    queries: Seq<String>,
    indexed: Seq<Vec<u8>>,
    scans: Seq<Vec<u8>>,
    paths: Seq<QueryPath>,
    k: int,
    n: int,
)
    requires
        0 <= k <= n,
        proofs_spec(equality, queries, indexed, scans, paths, k) is Err,
    ensures
        proofs_spec(equality, queries, indexed, scans, paths, n) == proofs_spec(
            equality,
            queries,
            indexed,
            scans,
            paths,
            k,
        ),
    decreases n - k,
{
    if k < n {
        lemma_proofs_err_stays(equality, queries, indexed, scans, paths, k + 1, n);
    }
}

// ---------------------------------------------------------------- checks

/// Every proof observed `path`.
pub open spec fn all_observed(ps: Seq<ProofM>, path: Seq<u8>) -> bool {
    forall|i: int| 0 <= i < ps.len() ==> #[trigger] ps[i].observed_access_path == path
}

/// The hard-fail checks of a run, each with whether it passed.
pub open spec fn hard_fail_list(run: &BenchRun) -> Seq<(Seq<u8>, bool)> {
    let eq_scan = median_of(run.equality_scan_ms@);
    let eq_indexed = median_of(run.equality_indexed_ms@);
    let range_scan = median_of(run.range_scan_ms@);
    let range_indexed = median_of(run.range_indexed_ms@);
    let r = run.recovery;
    seq![
        ("dataset_contract".spec_bytes(), true),
        ("equality_speedup".spec_bytes(), 5 * eq_indexed <= eq_scan && eq_scan > 0),
        ("range_speedup".spec_bytes(), 3 * range_indexed <= range_scan && range_scan > 0),
        (
            "indexed_equality_no_full_scan".spec_bytes(),
            run.equality_proofs@.len() == 100 && all_observed(
                proofs_view(run.equality_proofs@),
                "secondary_index_equality".spec_bytes(),
            ),
        ),
        (
            "indexed_range_no_full_scan".spec_bytes(),
            run.range_proofs@.len() == 50 && all_observed(
                proofs_view(run.range_proofs@),
                "secondary_index_range".spec_bytes(),
            ),
        ),
        (
            "recovery_proportionality".spec_bytes(),
            r.recovery_ms <= 2000000000000 || r.recovery_ms * 4096 <= r.wal_file_bytes * 1000000000,
        ),
        ("wal_replay_applied_records".spec_bytes(), r.wal_replay_applied_records == 10000),
        ("no_retry_required".spec_bytes(), true),
    ]
}

fn observed_all(ps: &Vec<IndexProof>, path: &str) -> (r: bool)
    ensures
        r == all_observed(proofs_view(ps@), path.spec_bytes()),
{
    let n = ps.len();
    let mut k: usize = 0;
    while k < n
        invariant
            n == ps@.len(),
            k <= n,
            forall|i: int| 0 <= i < k ==> #[trigger] ps@[i].observed_access_path.spec_bytes() == path.spec_bytes(),
        decreases n - k,
    {
        if !crate::text::bytes_eq(ps[k].observed_access_path.as_bytes(), path.as_bytes()) {
            assert(proofs_view(ps@)[k as int].observed_access_path != path.spec_bytes());
            return false;
        }
        k = k + 1;
    }
    assert forall|i: int| 0 <= i < proofs_view(ps@).len() implies #[trigger] proofs_view(
        ps@,
    )[i].observed_access_path == path.spec_bytes() by {
        assert(ps@[i].observed_access_path.spec_bytes() == path.spec_bytes());
    }
    true
}

/// One line of the `hard_fail_checks` array.
pub open spec fn check_json(c: (Seq<u8>, bool)) -> Seq<u8> {
    "{\"check_id\":\"".spec_bytes() + c.0 + "\",\"status\":\"".spec_bytes() + (if c.1 {
        "pass".spec_bytes()
    } else {
        "fail".spec_bytes()
    }) + "\"}".spec_bytes()
}

/// Items joined by a separator.
pub open spec fn joined(items: Seq<Seq<u8>>, sep: Seq<u8>) -> Seq<u8>
    decreases items.len(),
{
    if items.len() == 0 {
        Seq::empty()
    } else if items.len() == 1 {
        items[0]
    } else {
        joined(items.drop_last(), sep) + sep + items.last()
    }
}

proof fn lemma_joined_step(items: Seq<Seq<u8>>, sep: Seq<u8>, k: int)
    requires
        0 <= k < items.len(),
    ensures
        joined(items.subrange(0, k + 1), sep) == joined(items.subrange(0, k), sep) + (if k == 0 {
            Seq::<u8>::empty()
        } else {
            sep
        }) + items[k],
{
    let s = items.subrange(0, k + 1);
    assert(s.drop_last() =~= items.subrange(0, k));
    if k == 0 {
        assert(joined(items.subrange(0, 0), sep) =~= Seq::<u8>::empty());
        assert(Seq::<u8>::empty() + Seq::<u8>::empty() + items[0] =~= items[0]);
    }
}

fn push_bool(out: &mut Vec<u8>, b: bool)
    ensures
        final(out)@ == old(out)@ + if b {
            "true".spec_bytes()
        } else {
            "false".spec_bytes()
        },
{
    if b {
        push_all(out, "true".as_bytes());
    } else {
        push_all(out, "false".as_bytes());
    }
}

/// The `hard_fail_checks` array's items.
#[verifier::opaque]
pub open spec fn checks_text(run: &BenchRun) -> Seq<u8> {
    joined(hard_fail_list(run).map_values(|c: (Seq<u8>, bool)| check_json(c)), ",\n    ".spec_bytes())
}

fn push_check(out: &mut Vec<u8>, id: &str, passed: bool)
    ensures
        final(out)@ == old(out)@ + check_json((id.spec_bytes(), passed)),
{
    push_all(out, "{\"check_id\":\"".as_bytes());
    push_all(out, id.as_bytes());
    push_all(out, "\",\"status\":\"".as_bytes());
    if passed {
        push_all(out, "pass".as_bytes());
    } else {
        push_all(out, "fail".as_bytes());
    }
    push_all(out, "\"}".as_bytes());
    assert(final(out)@ =~= old(out)@ + check_json((id.spec_bytes(), passed)));
}

/// Appends the items of the hard-fail checks array.
pub fn push_hard_fail_checks(out: &mut Vec<u8>, run: &BenchRun)
    requires
        timings_present(run),
    ensures
        final(out)@ == old(out)@ + checks_text(run),
{
    proof {
        reveal(checks_text);
    }
    let eq_scan = median(&run.equality_scan_ms);
    let eq_indexed = median(&run.equality_indexed_ms);
    let range_scan = median(&run.range_scan_ms);
    let range_indexed = median(&run.range_indexed_ms);
    let eq_cover = run.equality_proofs.len() == 100 && observed_all(&run.equality_proofs, "secondary_index_equality");
    let range_cover = run.range_proofs.len() == 50 && observed_all(&run.range_proofs, "secondary_index_range");
    let r = &run.recovery;
    let proportional = r.recovery_ms <= 2000000000000 || (r.recovery_ms as u128) * 4096 <= (r.wal_file_bytes as u128)
        * 1000000000;
    let ids: [&str; 8] = [
        "dataset_contract",
        "equality_speedup",
        "range_speedup",
        "indexed_equality_no_full_scan",
        "indexed_range_no_full_scan",
        "recovery_proportionality",
        "wal_replay_applied_records",
        "no_retry_required",
    ];
    let verdicts: [bool; 8] = [
        true,
        (eq_indexed as u128) * 5 <= eq_scan as u128 && eq_scan > 0,
        (range_indexed as u128) * 3 <= range_scan as u128 && range_scan > 0,
        eq_cover,
        range_cover,
        proportional,
        r.wal_replay_applied_records == 10000,
        true,
    ];
    let ghost items = hard_fail_list(run).map_values(|c: (Seq<u8>, bool)| check_json(c));
    let ghost start = out@;
    proof {
        let l = hard_fail_list(run);
        assert forall|i: int| 0 <= i < 8 implies #[trigger] l[i] == (ids@[i].spec_bytes(), verdicts@[i]) by {}
    }
    let mut k: usize = 0;
    while k < 8
        invariant
            k <= 8,
            items == hard_fail_list(run).map_values(|c: (Seq<u8>, bool)| check_json(c)),
            items.len() == 8,
            forall|i: int| 0 <= i < 8 ==> #[trigger] items[i] == check_json((ids@[i].spec_bytes(), verdicts@[i])),
            out@ == start + joined(items.subrange(0, k as int), ",\n    ".spec_bytes()),
        decreases 8 - k,
    {
        proof {
            lemma_joined_step(items, ",\n    ".spec_bytes(), k as int);
        }
        if k > 0 {
            push_all(out, ",\n    ".as_bytes());
        }
        push_check(out, ids[k], verdicts[k]);
        assert(out@ =~= start + joined(items.subrange(0, k + 1), ",\n    ".spec_bytes()));
        k = k + 1;
    }
    assert(items.subrange(0, 8) =~= items);
}

// ---------------------------------------------------------------- document

/// The ids the primary key lookups ask for.
pub open spec fn lookup_ids() -> Seq<usize> {
    Seq::new(100, |n: int| lookup_id_of(n) as usize)
}

/// The keys the equality queries ask for.
pub open spec fn equality_key_list() -> Seq<usize> {
    Seq::new(100, |n: int| equality_key_of(n) as usize)
}

/// The windows of the range queries.
pub open spec fn window_list() -> Seq<(usize, usize)> {
    Seq::new(50, |n: int| (range_low_of(n) as usize, (range_low_of(n) + 49) as usize))
}

/// Numbers joined by commas.
pub open spec fn ids_text(s: Seq<usize>) -> Seq<u8> {
    joined(s.map_values(|v: usize| digits_of(v as nat)), ",".spec_bytes())
}

/// One window as a JSON object.
pub open spec fn window_json(w: (usize, usize)) -> Seq<u8> {
    "{\"low\":".spec_bytes() + digits_of(w.0 as nat) + ",\"high\":".spec_bytes() + digits_of(w.1 as nat) + "}".spec_bytes()
}

/// Windows joined by commas.
pub open spec fn windows_text(ws: Seq<(usize, usize)>) -> Seq<u8> {
    joined(ws.map_values(|w: (usize, usize)| window_json(w)), ",".spec_bytes())
}

/// Times joined by commas, each with nine decimals.
pub open spec fn times_text(s: Seq<u64>) -> Seq<u8> {
    joined(s.map_values(|v: u64| fixed9(v as nat)), ",".spec_bytes())
}

/// `true` or `false`.
pub open spec fn bool_text(b: bool) -> Seq<u8> {
    if b {
        "true".spec_bytes()
    } else {
        "false".spec_bytes()
    }
}

/// Text escaped for JSON: each backslash and each quote preceded by a
/// backslash.
pub open spec fn escaped(s: Seq<u8>) -> Seq<u8>
    decreases s.len(),
{
    if s.len() == 0 {
        Seq::empty()
    } else {
        escaped(s.drop_last()) + if s.last() == 92u8 || s.last() == 34u8 {
            seq![92u8, s.last()]
        } else {
            seq![s.last()]
        }
    }
}

/// The first fields of a proof object: its kind, predicate and expected path.
pub open spec fn proof_json_kinds(p: ProofM) -> Seq<u8> {
    "{\"query_kind\":\"".spec_bytes()
        + p.query_kind
        + "\",\"predicate\":\"".spec_bytes()
        + escaped(p.predicate)
        + "\",\"expected_access_path\":\"".spec_bytes()
        + p.expected_access_path
        + "\",\"observed_access_path\":\"".spec_bytes()
        + p.observed_access_path
}

/// The middle fields of a proof object: the observed path, the index and the scan verdict.
pub open spec fn proof_json_paths(p: ProofM) -> Seq<u8> {
    "\",\"used_index\":\"".spec_bytes()
        + p.used_index
        + "\",\"scan_rejected\":".spec_bytes()
        + bool_text(p.scan_rejected)
        + ",\"indexed_result_count\":".spec_bytes()
        + digits_of(p.indexed_result_count as nat)
        + ",\"scan_result_count\":".spec_bytes()
        + digits_of(p.scan_result_count as nat)
}

/// The last fields of a proof object: the counts, the hashes and whether they match.
pub open spec fn proof_json_results(p: ProofM) -> Seq<u8> {
    ",\"indexed_result_hash\":".spec_bytes()
        + digits_of(p.indexed_result_hash as nat)
        + ",\"scan_result_hash\":".spec_bytes()
        + digits_of(p.scan_result_hash as nat)
        + ",\"result_hash_match\":".spec_bytes()
        + bool_text(p.result_hash_match)
        + "}".spec_bytes()
}

/// One proof as a JSON object.
#[verifier::opaque]
pub open spec fn proof_json(p: ProofM) -> Seq<u8> {
    proof_json_kinds(p) + proof_json_paths(p) + proof_json_results(p)
}

/// The proofs, equality then range, as the `index_use_evidence` items.
#[verifier::opaque]
pub open spec fn proofs_text(run: &BenchRun) -> Seq<u8> {
    joined(
        (proofs_view(run.equality_proofs@) + proofs_view(run.range_proofs@)).map_values(|p: ProofM| proof_json(p)),
        ",\n    ".spec_bytes(),
    )
}

/// The document from its start to the first measurement.
pub open spec fn head_text(verify_status: Seq<u8>) -> Seq<u8> {
    "{\n  \"schema_version\":1,\n  \"artifact\":\"v1-section14-benchmark-acceptance\",\n  \"row_count\":100000,\n  \"primary_key_type\":\"INTEGER\",\n  \"secondary_index_column\":\"group_key\",\n  \"secondary_index_name\":\"idx_section14_bench_group_key\",\n  \"text_bytes_min\":8,\n  \"text_bytes_max\":64,\n  \"deterministic_seed\":140014,\n  \"warmup_runs\":1,\n  \"measurement_runs\":5,\n  \"runtime_cap_seconds\":300,\n  \"commands\":{\n    \"db_bench\":{\"status\":\"pass\",\"evidence_path\":\"target/bench_acceptance/section14-benchmark-acceptance.json\",\"stdout_sentinel\":\"DB_BENCH: PASS evidence=target/bench_acceptance/section14-benchmark-acceptance.json\"},\n    \"verify_bench_acceptance\":{\"status\":\"".spec_bytes()
        + verify_status
        + "\",\"evidence_path\":\"target/bench_acceptance/section14-benchmark-acceptance.json\",\"stdout_sentinel\":\"BENCH_ACCEPTANCE: PASS evidence=target/bench_acceptance/section14-benchmark-acceptance.json\"}\n  },\n  \"workload\":{\n    \"table_schema\":\"bench_items(id INTEGER PRIMARY KEY, group_key INTEGER, payload TEXT)\",\n    \"dataset_generation\":\"id 1..100000; group_key=((id * 7919 + deterministic_seed) % 10000) + 1; payload length=8 + ((id * 17 + deterministic_seed) % 57)\",\n    \"primary_key_lookup\":{\"rule\":\"lookup_id(n)=((deterministic_seed + n * 9973) % row_count) + 1\",\"n_start\":0,\"n_end\":99,\"count_per_run\":100,\"keys\":[".spec_bytes()
        + ids_text(lookup_ids())
        + "]},\n    \"secondary_equality\":{\"rule\":\"equality_key(n)=((deterministic_seed + n * 433) % 10000) + 1\",\"n_start\":0,\"n_end\":99,\"count_per_run\":100,\"keys\":[".spec_bytes()
        + ids_text(equality_key_list())
        + "]},\n    \"secondary_range\":{\"rule\":\"range_low(n)=((deterministic_seed + n * 137) % 9950) + 1; range_high=range_low+49\",\"n_start\":0,\"n_end\":49,\"count_per_run\":50,\"range_window_distinct_group_keys\":50,\"selectivity_fraction\":0.005,\"windows\":[".spec_bytes()
        + windows_text(window_list())
        + "]},\n    \"scan_comparison\":{\"mode\":\"explicit_harness_full_scan\",\"same_dataset\":true,\"same_predicate\":true,\"result_hash_required\":true},\n    \"scan_comparison_mode\":\"explicit_harness_full_scan\",\n    \"measured_counts_by_run\":[{\"run\":1,\"primary_key_lookup\":100,\"secondary_equality_indexed\":100,\"secondary_equality_scan\":100,\"range_indexed\":50,\"range_scan\":50,\"total\":400},{\"run\":2,\"primary_key_lookup\":100,\"secondary_equality_indexed\":100,\"secondary_equality_scan\":100,\"range_indexed\":50,\"range_scan\":50,\"total\":400},{\"run\":3,\"primary_key_lookup\":100,\"secondary_equality_indexed\":100,\"secondary_equality_scan\":100,\"range_indexed\":50,\"range_scan\":50,\"total\":400},{\"run\":4,\"primary_key_lookup\":100,\"secondary_equality_indexed\":100,\"secondary_equality_scan\":100,\"range_indexed\":50,\"range_scan\":50,\"total\":400},{\"run\":5,\"primary_key_lookup\":100,\"secondary_equality_indexed\":100,\"secondary_equality_scan\":100,\"range_indexed\":50,\"range_scan\":50,\"total\":400}],\n    \"measured_query_count_per_run\":400,\n    \"measured_query_count_total\":2000,\n    \"sequential_inserts\":100000,\n    \"recovery_after_committed_transactions\":10000\n  },\n  \"raw_measurements\":{\n    \"runtime_ms\":".spec_bytes()
}

/// The raw measurements.
pub open spec fn raw_text(run: &BenchRun) -> Seq<u8> {
    fixed3(run.runtime_ms as nat)
        + ",\n    \"primary_key_lookup_run_ms\":[".spec_bytes()
        + times_text(run.primary_key_ms@)
        + "],\n    \"secondary_equality_indexed_run_ms\":[".spec_bytes()
        + times_text(run.equality_indexed_ms@)
        + "],\n    \"secondary_equality_scan_run_ms\":[".spec_bytes()
        + times_text(run.equality_scan_ms@)
        + "],\n    \"range_indexed_run_ms\":[".spec_bytes()
        + times_text(run.range_indexed_ms@)
        + "],\n    \"range_scan_run_ms\":[".spec_bytes()
        + times_text(run.range_scan_ms@)
        + "]\n  },\n  \"metrics\":{\n    \"sequential_insert_elapsed_ms\":".spec_bytes()
}

/// The metrics.
pub open spec fn metrics_text(run: &BenchRun) -> Seq<u8> {
    fixed3(run.setup.sequential_insert_elapsed_ms as nat)
        + ",\n    \"insert_throughput_rows_per_sec\":".spec_bytes()
        + fixed3(run.setup.insert_throughput_rows_per_sec as nat)
        + ",\n    \"primary_key_lookup_median_ms\":".spec_bytes()
        + fixed9(median_of(run.primary_key_ms@) as nat)
        + ",\n    \"secondary_equality_indexed_median_ms\":".spec_bytes()
        + fixed9(median_of(run.equality_indexed_ms@) as nat)
        + ",\n    \"secondary_equality_scan_median_ms\":".spec_bytes()
        + fixed9(median_of(run.equality_scan_ms@) as nat)
        + ",\n    \"range_indexed_median_ms\":".spec_bytes()
        + fixed9(median_of(run.range_indexed_ms@) as nat)
        + ",\n    \"range_scan_median_ms\":".spec_bytes()
        + fixed9(median_of(run.range_scan_ms@) as nat)
        + ",\n    \"equality_index_speedup\":".spec_bytes()
        + fixed9(speedup_of(median_of(run.equality_scan_ms@), median_of(run.equality_indexed_ms@)) as nat)
        + ",\n    \"range_index_speedup\":".spec_bytes()
        + fixed9(speedup_of(median_of(run.range_scan_ms@), median_of(run.range_indexed_ms@)) as nat)
        + ",\n    \"db_file_bytes\":".spec_bytes()
        + digits_of(run.setup.db_file_bytes as nat)
        + ",\n    \"wal_file_bytes\":".spec_bytes()
        + digits_of(run.setup.wal_file_bytes as nat)
        + "\n  },\n\t    \"recovery\":{\n\t    \"committed_transaction_count\":".spec_bytes()
}

/// The recovery measurement.
pub open spec fn recovery_text(run: &BenchRun) -> Seq<u8> {
    digits_of(run.recovery.committed_transaction_count as nat)
        + ",\n\t    \"wal_replay_applied_records\":".spec_bytes()
        + digits_of(run.recovery.wal_replay_applied_records as nat)
        + ",\n\t    \"wal_file_bytes\":".spec_bytes()
        + digits_of(run.recovery.wal_file_bytes as nat)
        + ",\n    \"recovery_ms\":".spec_bytes()
        + fixed3(run.recovery.recovery_ms as nat)
        + ",\n    \"recovered_row_count\":".spec_bytes()
        + digits_of(run.recovery.recovered_row_count as nat)
        + ",\n    \"representative_lookup_result\":{\"matched\":".spec_bytes()
        + bool_text(run.recovery.representative_matched)
        + ",\"id\":".spec_bytes()
        + digits_of(run.recovery.representative_id as nat)
        + ",\"group_key\":".spec_bytes()
        + digits_of(run.recovery.representative_group_key as nat)
        + ",\"payload\":\"".spec_bytes()
        + escaped(run.recovery.representative_payload@)
        + "\"}\n  },\n  \"index_use_evidence\":[\n    ".spec_bytes()
}

/// The proofs, the checks and the result.
pub open spec fn tail_text(run: &BenchRun, result: Seq<u8>) -> Seq<u8> {
    proofs_text(run)
        + "\n  ],\n  \"hard_fail_checks\":[\n    ".spec_bytes()
        + checks_text(run)
        + "\n  ],\n  \"result\":\"".spec_bytes()
        + result
        + "\"\n}\n".spec_bytes()
}

/// The whole evidence document.
pub open spec fn evidence_text(run: &BenchRun, verify_status: Seq<u8>, result: Seq<u8>) -> Seq<u8> {
    head_text(verify_status) + raw_text(run) + metrics_text(run) + recovery_text(run) + tail_text(run, result)
}

fn push_escaped(out: &mut Vec<u8>, s: &[u8])
    ensures
        final(out)@ == old(out)@ + escaped(s@),
{
    let n = s.len();
    let mut i: usize = 0;
    let ghost start = out@;
    assert(s@.subrange(0, 0) =~= Seq::<u8>::empty());
    while i < n
        invariant
            n == s@.len(),
            i <= n,
            out@ == start + escaped(s@.subrange(0, i as int)),
        decreases n - i,
    {
        assert(s@.subrange(0, i + 1).drop_last() =~= s@.subrange(0, i as int));
        let b = s[i];
        if b == 92u8 || b == 34u8 {
            out.push(92u8);
        }
        out.push(b);
        assert(out@ =~= start + escaped(s@.subrange(0, i + 1)));
        i = i + 1;
    }
    assert(s@.subrange(0, n as int) =~= s@);
}

fn push_ids(out: &mut Vec<u8>, v: &Vec<usize>)
    ensures
        final(out)@ == old(out)@ + ids_text(v@),
{
    let ghost items = v@.map_values(|x: usize| digits_of(x as nat));
    let ghost start = out@;
    let n = v.len();
    let mut k: usize = 0;
    assert(items.subrange(0, 0) =~= Seq::<Seq<u8>>::empty());
    while k < n
        invariant
            n == v@.len(),
            k <= n,
            items == v@.map_values(|x: usize| digits_of(x as nat)),
            out@ == start + joined(items.subrange(0, k as int), ",".spec_bytes()),
        decreases n - k,
    {
        proof {
            lemma_joined_step(items, ",".spec_bytes(), k as int);
        }
        if k > 0 {
            push_all(out, ",".as_bytes());
        }
        push_count(out, v[k] as u64);
        assert(out@ =~= start + joined(items.subrange(0, k + 1), ",".spec_bytes()));
        k = k + 1;
    }
    assert(items.subrange(0, n as int) =~= items);
}

fn push_windows(out: &mut Vec<u8>, v: &Vec<(usize, usize)>)
    ensures
        final(out)@ == old(out)@ + windows_text(v@),
{
    let ghost items = v@.map_values(|w: (usize, usize)| window_json(w));
    let ghost start = out@;
    let n = v.len();
    let mut k: usize = 0;
    assert(items.subrange(0, 0) =~= Seq::<Seq<u8>>::empty());
    while k < n
        invariant
            n == v@.len(),
            k <= n,
            items == v@.map_values(|w: (usize, usize)| window_json(w)),
            out@ == start + joined(items.subrange(0, k as int), ",".spec_bytes()),
        decreases n - k,
    {
        proof {
            lemma_joined_step(items, ",".spec_bytes(), k as int);
        }
        if k > 0 {
            push_all(out, ",".as_bytes());
        }
        let (low, high) = v[k];
        let ghost before = out@;
        push_all(out, "{\"low\":".as_bytes());
        push_count(out, low as u64);
        push_all(out, ",\"high\":".as_bytes());
        push_count(out, high as u64);
        push_all(out, "}".as_bytes());
        assert(out@ =~= before + window_json(v@[k as int]));
        assert(out@ =~= start + joined(items.subrange(0, k + 1), ",".spec_bytes()));
        k = k + 1;
    }
    assert(items.subrange(0, n as int) =~= items);
}

fn push_times(out: &mut Vec<u8>, v: &Vec<u64>)
    ensures
        final(out)@ == old(out)@ + times_text(v@),
{
    let ghost items = v@.map_values(|x: u64| fixed9(x as nat));
    let ghost start = out@;
    let n = v.len();
    let mut k: usize = 0;
    assert(items.subrange(0, 0) =~= Seq::<Seq<u8>>::empty());
    while k < n
        invariant
            n == v@.len(),
            k <= n,
            items == v@.map_values(|x: u64| fixed9(x as nat)),
            out@ == start + joined(items.subrange(0, k as int), ",".spec_bytes()),
        decreases n - k,
    {
        proof {
            lemma_joined_step(items, ",".spec_bytes(), k as int);
        }
        if k > 0 {
            push_all(out, ",".as_bytes());
        }
        push_fixed9(out, v[k]);
        assert(out@ =~= start + joined(items.subrange(0, k + 1), ",".spec_bytes()));
        k = k + 1;
    }
    assert(items.subrange(0, n as int) =~= items);
}

fn push_proof_kinds(out: &mut Vec<u8>, p: &IndexProof)
    ensures
        final(out)@ == old(out)@ + proof_json_kinds(p@),
{
    push_all(out, "{\"query_kind\":\"".as_bytes());
    push_all(out, p.query_kind.as_bytes());
    push_all(out, "\",\"predicate\":\"".as_bytes());
    push_escaped(out, p.predicate.as_slice());
    push_all(out, "\",\"expected_access_path\":\"".as_bytes());
    push_all(out, p.expected_access_path.as_bytes());
    push_all(out, "\",\"observed_access_path\":\"".as_bytes());
    push_all(out, p.observed_access_path.as_bytes());
    assert(final(out)@ =~= old(out)@ + proof_json_kinds(p@));
}

fn push_proof_paths(out: &mut Vec<u8>, p: &IndexProof)
    ensures
        final(out)@ == old(out)@ + proof_json_paths(p@),
{
    push_all(out, "\",\"used_index\":\"".as_bytes());
    push_all(out, p.used_index.as_slice());
    push_all(out, "\",\"scan_rejected\":".as_bytes());
    push_bool(out, p.scan_rejected);
    push_all(out, ",\"indexed_result_count\":".as_bytes());
    push_count(out, p.indexed_result_count as u64);
    push_all(out, ",\"scan_result_count\":".as_bytes());
    push_count(out, p.scan_result_count as u64);
    assert(final(out)@ =~= old(out)@ + proof_json_paths(p@));
}

fn push_proof_results(out: &mut Vec<u8>, p: &IndexProof)
    ensures
        final(out)@ == old(out)@ + proof_json_results(p@),
{
    push_all(out, ",\"indexed_result_hash\":".as_bytes());
    push_count(out, p.indexed_result_hash);
    push_all(out, ",\"scan_result_hash\":".as_bytes());
    push_count(out, p.scan_result_hash);
    push_all(out, ",\"result_hash_match\":".as_bytes());
    push_bool(out, p.result_hash_match);
    push_all(out, "}".as_bytes());
    assert(final(out)@ =~= old(out)@ + proof_json_results(p@));
}

fn push_proof(out: &mut Vec<u8>, p: &IndexProof)
    ensures
        final(out)@ == old(out)@ + proof_json(p@),
{
    push_proof_kinds(out, p);
    push_proof_paths(out, p);
    push_proof_results(out, p);
    proof {
        reveal(proof_json);
    }
    assert(final(out)@ =~= old(out)@ + proof_json(p@));
}

fn push_proofs(out: &mut Vec<u8>, run: &BenchRun)
    ensures
        final(out)@ == old(out)@ + proofs_text(run),
{
    proof {
        reveal(proofs_text);
    }
    let ghost all = proofs_view(run.equality_proofs@) + proofs_view(run.range_proofs@);
    let ghost items = all.map_values(|p: ProofM| proof_json(p));
    let ghost start = out@;
    let a = run.equality_proofs.len();
    let b = run.range_proofs.len();
    let mut k: usize = 0;
    assert(items.subrange(0, 0) =~= Seq::<Seq<u8>>::empty());
    while k < a
        invariant
            a == run.equality_proofs@.len(),
            b == run.range_proofs@.len(),
            k <= a,
            all == proofs_view(run.equality_proofs@) + proofs_view(run.range_proofs@),
            items == all.map_values(|p: ProofM| proof_json(p)),
            out@ == start + joined(items.subrange(0, k as int), ",\n    ".spec_bytes()),
        decreases a - k,
    {
        proof {
            lemma_joined_step(items, ",\n    ".spec_bytes(), k as int);
        }
        if k > 0 {
            push_all(out, ",\n    ".as_bytes());
        }
        push_proof(out, &run.equality_proofs[k]);
        assert(items[k as int] == proof_json(run.equality_proofs@[k as int]@));
        assert(out@ =~= start + joined(items.subrange(0, k + 1), ",\n    ".spec_bytes()));
        k = k + 1;
    }
    let mut j: usize = 0;
    while j < b
        invariant
            a == run.equality_proofs@.len(),
            b == run.range_proofs@.len(),
            j <= b,
            all == proofs_view(run.equality_proofs@) + proofs_view(run.range_proofs@),
            items == all.map_values(|p: ProofM| proof_json(p)),
            out@ == start + joined(items.subrange(0, a + j), ",\n    ".spec_bytes()),
        decreases b - j,
    {
        proof {
            lemma_joined_step(items, ",\n    ".spec_bytes(), a + j);
        }
        if a > 0 || j > 0 {
            push_all(out, ",\n    ".as_bytes());
        }
        push_proof(out, &run.range_proofs[j]);
        assert(items[a + j] == proof_json(run.range_proofs@[j as int]@));
        assert(out@ =~= start + joined(items.subrange(0, a + j + 1), ",\n    ".spec_bytes()));
        j = j + 1;
    }
    assert(items.subrange(0, a + b) =~= items);
}

fn push_head(out: &mut Vec<u8>, verify_status: &[u8])
    ensures
        final(out)@ == old(out)@ + head_text(verify_status@),
{
    let ids = primary_key_lookup_ids();
    let keys = equality_keys();
    let windows = range_windows();
    assert(ids@ =~= lookup_ids());
    assert(keys@ =~= equality_key_list());
    assert(windows@ =~= window_list());
    push_all(out, "{\n  \"schema_version\":1,\n  \"artifact\":\"v1-section14-benchmark-acceptance\",\n  \"row_count\":100000,\n  \"primary_key_type\":\"INTEGER\",\n  \"secondary_index_column\":\"group_key\",\n  \"secondary_index_name\":\"idx_section14_bench_group_key\",\n  \"text_bytes_min\":8,\n  \"text_bytes_max\":64,\n  \"deterministic_seed\":140014,\n  \"warmup_runs\":1,\n  \"measurement_runs\":5,\n  \"runtime_cap_seconds\":300,\n  \"commands\":{\n    \"db_bench\":{\"status\":\"pass\",\"evidence_path\":\"target/bench_acceptance/section14-benchmark-acceptance.json\",\"stdout_sentinel\":\"DB_BENCH: PASS evidence=target/bench_acceptance/section14-benchmark-acceptance.json\"},\n    \"verify_bench_acceptance\":{\"status\":\"".as_bytes());
    push_all(out, verify_status);
    push_all(out, "\",\"evidence_path\":\"target/bench_acceptance/section14-benchmark-acceptance.json\",\"stdout_sentinel\":\"BENCH_ACCEPTANCE: PASS evidence=target/bench_acceptance/section14-benchmark-acceptance.json\"}\n  },\n  \"workload\":{\n    \"table_schema\":\"bench_items(id INTEGER PRIMARY KEY, group_key INTEGER, payload TEXT)\",\n    \"dataset_generation\":\"id 1..100000; group_key=((id * 7919 + deterministic_seed) % 10000) + 1; payload length=8 + ((id * 17 + deterministic_seed) % 57)\",\n    \"primary_key_lookup\":{\"rule\":\"lookup_id(n)=((deterministic_seed + n * 9973) % row_count) + 1\",\"n_start\":0,\"n_end\":99,\"count_per_run\":100,\"keys\":[".as_bytes());
    push_ids(out, &ids);
    push_all(out, "]},\n    \"secondary_equality\":{\"rule\":\"equality_key(n)=((deterministic_seed + n * 433) % 10000) + 1\",\"n_start\":0,\"n_end\":99,\"count_per_run\":100,\"keys\":[".as_bytes());
    push_ids(out, &keys);
    push_all(out, "]},\n    \"secondary_range\":{\"rule\":\"range_low(n)=((deterministic_seed + n * 137) % 9950) + 1; range_high=range_low+49\",\"n_start\":0,\"n_end\":49,\"count_per_run\":50,\"range_window_distinct_group_keys\":50,\"selectivity_fraction\":0.005,\"windows\":[".as_bytes());
    push_windows(out, &windows);
    push_all(out, "]},\n    \"scan_comparison\":{\"mode\":\"explicit_harness_full_scan\",\"same_dataset\":true,\"same_predicate\":true,\"result_hash_required\":true},\n    \"scan_comparison_mode\":\"explicit_harness_full_scan\",\n    \"measured_counts_by_run\":[{\"run\":1,\"primary_key_lookup\":100,\"secondary_equality_indexed\":100,\"secondary_equality_scan\":100,\"range_indexed\":50,\"range_scan\":50,\"total\":400},{\"run\":2,\"primary_key_lookup\":100,\"secondary_equality_indexed\":100,\"secondary_equality_scan\":100,\"range_indexed\":50,\"range_scan\":50,\"total\":400},{\"run\":3,\"primary_key_lookup\":100,\"secondary_equality_indexed\":100,\"secondary_equality_scan\":100,\"range_indexed\":50,\"range_scan\":50,\"total\":400},{\"run\":4,\"primary_key_lookup\":100,\"secondary_equality_indexed\":100,\"secondary_equality_scan\":100,\"range_indexed\":50,\"range_scan\":50,\"total\":400},{\"run\":5,\"primary_key_lookup\":100,\"secondary_equality_indexed\":100,\"secondary_equality_scan\":100,\"range_indexed\":50,\"range_scan\":50,\"total\":400}],\n    \"measured_query_count_per_run\":400,\n    \"measured_query_count_total\":2000,\n    \"sequential_inserts\":100000,\n    \"recovery_after_committed_transactions\":10000\n  },\n  \"raw_measurements\":{\n    \"runtime_ms\":".as_bytes());
    assert(final(out)@ =~= old(out)@ + head_text(verify_status@));
}

fn push_raw(out: &mut Vec<u8>, run: &BenchRun)
    ensures
        final(out)@ == old(out)@ + raw_text(run),
{
    push_fixed3(out, run.runtime_ms);
    push_all(out, ",\n    \"primary_key_lookup_run_ms\":[".as_bytes());
    push_times(out, &run.primary_key_ms);
    push_all(out, "],\n    \"secondary_equality_indexed_run_ms\":[".as_bytes());
    push_times(out, &run.equality_indexed_ms);
    push_all(out, "],\n    \"secondary_equality_scan_run_ms\":[".as_bytes());
    push_times(out, &run.equality_scan_ms);
    push_all(out, "],\n    \"range_indexed_run_ms\":[".as_bytes());
    push_times(out, &run.range_indexed_ms);
    push_all(out, "],\n    \"range_scan_run_ms\":[".as_bytes());
    push_times(out, &run.range_scan_ms);
    push_all(out, "]\n  },\n  \"metrics\":{\n    \"sequential_insert_elapsed_ms\":".as_bytes());
    assert(final(out)@ =~= old(out)@ + raw_text(run));
}

#[verifier::rlimit(60)]
fn push_metrics(out: &mut Vec<u8>, run: &BenchRun)
    requires
        timings_present(run),
    ensures
        final(out)@ == old(out)@ + metrics_text(run),
{
    let eq_indexed = median(&run.equality_indexed_ms);
    let eq_scan = median(&run.equality_scan_ms);
    let range_indexed = median(&run.range_indexed_ms);
    let range_scan = median(&run.range_scan_ms);
    push_fixed3(out, run.setup.sequential_insert_elapsed_ms);
    push_all(out, ",\n    \"insert_throughput_rows_per_sec\":".as_bytes());
    push_fixed3(out, run.setup.insert_throughput_rows_per_sec);
    push_all(out, ",\n    \"primary_key_lookup_median_ms\":".as_bytes());
    push_fixed9(out, median(&run.primary_key_ms));
    push_all(out, ",\n    \"secondary_equality_indexed_median_ms\":".as_bytes());
    push_fixed9(out, eq_indexed);
    push_all(out, ",\n    \"secondary_equality_scan_median_ms\":".as_bytes());
    push_fixed9(out, eq_scan);
    push_all(out, ",\n    \"range_indexed_median_ms\":".as_bytes());
    push_fixed9(out, range_indexed);
    push_all(out, ",\n    \"range_scan_median_ms\":".as_bytes());
    push_fixed9(out, range_scan);
    push_all(out, ",\n    \"equality_index_speedup\":".as_bytes());
    push_fixed9(out, speedup(eq_scan, eq_indexed));
    push_all(out, ",\n    \"range_index_speedup\":".as_bytes());
    push_fixed9(out, speedup(range_scan, range_indexed));
    push_all(out, ",\n    \"db_file_bytes\":".as_bytes());
    push_count(out, run.setup.db_file_bytes);
    push_all(out, ",\n    \"wal_file_bytes\":".as_bytes());
    push_count(out, run.setup.wal_file_bytes);
    push_all(out, "\n  },\n\t    \"recovery\":{\n\t    \"committed_transaction_count\":".as_bytes());
    assert(final(out)@ =~= old(out)@ + metrics_text(run));
}

fn push_recovery(out: &mut Vec<u8>, run: &BenchRun)
    ensures
        final(out)@ == old(out)@ + recovery_text(run),
{
    push_count(out, run.recovery.committed_transaction_count);
    push_all(out, ",\n\t    \"wal_replay_applied_records\":".as_bytes());
    push_count(out, run.recovery.wal_replay_applied_records);
    push_all(out, ",\n\t    \"wal_file_bytes\":".as_bytes());
    push_count(out, run.recovery.wal_file_bytes);
    push_all(out, ",\n    \"recovery_ms\":".as_bytes());
    push_fixed3(out, run.recovery.recovery_ms);
    push_all(out, ",\n    \"recovered_row_count\":".as_bytes());
    push_count(out, run.recovery.recovered_row_count);
    push_all(out, ",\n    \"representative_lookup_result\":{\"matched\":".as_bytes());
    push_bool(out, run.recovery.representative_matched);
    push_all(out, ",\"id\":".as_bytes());
    push_count(out, run.recovery.representative_id);
    push_all(out, ",\"group_key\":".as_bytes());
    push_count(out, run.recovery.representative_group_key);
    push_all(out, ",\"payload\":\"".as_bytes());
    push_escaped(out, run.recovery.representative_payload.as_slice());
    push_all(out, "\"}\n  },\n  \"index_use_evidence\":[\n    ".as_bytes());
    assert(final(out)@ =~= old(out)@ + recovery_text(run));
}

fn push_tail(out: &mut Vec<u8>, run: &BenchRun, result: &[u8])
    requires
        timings_present(run),
    ensures
        final(out)@ == old(out)@ + tail_text(run, result@),
{
    push_proofs(out, run);
    push_all(out, "\n  ],\n  \"hard_fail_checks\":[\n    ".as_bytes());
    push_hard_fail_checks(out, run);
    push_all(out, "\n  ],\n  \"result\":\"".as_bytes());
    push_all(out, result);
    push_all(out, "\"\n}\n".as_bytes());
    assert(final(out)@ =~= old(out)@ + tail_text(run, result@));
}

/// Writes the evidence document of a run.
pub fn build_evidence_json(run: &BenchRun, verify_status: &str, result: &str) -> (json: Vec<u8>)
    requires
        timings_present(run),
    ensures
        json@ == evidence_text(run, verify_status.spec_bytes(), result.spec_bytes()),
{
    let mut out: Vec<u8> = Vec::new();
    push_head(&mut out, verify_status.as_bytes());
    push_raw(&mut out, run);
    push_metrics(&mut out, run);
    push_recovery(&mut out, run);
    push_tail(&mut out, run, result.as_bytes());
    assert(out@ =~= evidence_text(run, verify_status.spec_bytes(), result.spec_bytes()));
    out
}

} // verus!
