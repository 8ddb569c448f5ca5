//! The benchmark's workload: its generated rows, its queries, the SQL text
//! that loads the rows, and the explicit full scan that answers the same
//! queries without an index.
use crate::bytes::push_all;
use crate::text::{digits_of, u64_digits};
use vstd::prelude::*;
use vstd::string::*;

verus! {

/// The seed every generated value derives from.
pub const DETERMINISTIC_SEED: usize = 140014;

/// Rows in the measured table.
pub const ROW_COUNT: usize = 100000;

/// Rows written only to the log for the recovery measurement.
pub const RECOVERY_ROW_COUNT: usize = 10000;

/// One generated row of `bench_items`.
pub struct BenchRow {
    pub id: usize,
    pub group_key: usize,
    pub payload: Vec<u8>,
}

/// The group key of row `id`.
pub open spec fn group_key_of(id: int) -> int {
    ((id * 7919 + 140014) % 10000) + 1
}

/// The payload length of row `id`.
pub open spec fn payload_len_of(id: int) -> int {
    8 + ((id * 17 + 140014) % 57)
}

/// The payload of row `id`: `len` lower-case letters.
pub open spec fn payload_of(id: int, len: int) -> Seq<u8> {
    Seq::new(len as nat, |o: int| (97 + ((id + o + 140014) % 26)) as u8)
}

/// `row` is the generated row `id`.
pub open spec fn is_row(row: BenchRow, id: int) -> bool {
    &&& row.id == id
    &&& row.group_key == group_key_of(id)
    &&& row.payload@ == payload_of(id, payload_len_of(id))
}

/// The rows are the generated rows `1..=rows.len()`.
pub open spec fn generated(rows: Seq<BenchRow>) -> bool {
    forall|i: int| 0 <= i < rows.len() ==> is_row(#[trigger] rows[i], i + 1)
}

/// The group key of the generated row with this id.
pub fn group_key_for_id(id: usize) -> (k: usize)
    requires
        id * 7919 + 140014 <= usize::MAX,
    ensures
        k == group_key_of(id as int),
{
    ((id * 7919 + DETERMINISTIC_SEED) % 10000) + 1
}

/// The payload length of the generated row with this id.
pub fn payload_len_for_id(id: usize) -> (n: usize)
    requires
        id * 17 + 140014 <= usize::MAX,
    ensures
        n == payload_len_of(id as int),
        8 <= n <= 64,
{
    8 + ((id * 17 + DETERMINISTIC_SEED) % 57)
}

/// `len` letters, each derived from the row and
/// its offset.
pub fn deterministic_payload(id: usize, len: usize) -> (p: Vec<u8>)
    requires
        id + len + 140014 <= usize::MAX,
    ensures
        p@ == payload_of(id as int, len as int),
{
    let mut p: Vec<u8> = Vec::new();
    let mut o: usize = 0;
    while o < len
        invariant
            o <= len,
            id + len + 140014 <= usize::MAX,
            p@ == payload_of(id as int, o as int),
        decreases len - o,
    {
        let x = (id + o + DETERMINISTIC_SEED) % 26;
        p.push(97u8 + x as u8);
        o = o + 1;
        assert(p@ =~= payload_of(id as int, o as int));
    }
    p
}

/// The generated rows `1..=row_count`.
pub fn build_rows(row_count: usize) -> (rows: Vec<BenchRow>)
    requires
        row_count * 7919 + 140014 <= usize::MAX,
    ensures
        rows@.len() == row_count,
        generated(rows@),
{
    let mut rows: Vec<BenchRow> = Vec::new();
    let mut id: usize = 1;
    while id <= row_count
        invariant
            1 <= id <= row_count + 1,
            row_count * 7919 + 140014 <= usize::MAX,
            rows@.len() == id - 1,
            generated(rows@),
        decreases row_count + 1 - id,
    {
        let group_key = group_key_for_id(id);
        let len = payload_len_for_id(id);
        let payload = deterministic_payload(id, len);
        rows.push(BenchRow { id, group_key, payload });
        id = id + 1;
    }
    rows
}

/// The id of the `n`-th primary key lookup.
pub open spec fn lookup_id_of(n: int) -> int {
    ((140014 + n * 9973) % 100000) + 1
}

/// The key of the `n`-th equality query.
pub open spec fn equality_key_of(n: int) -> int {
    ((140014 + n * 433) % 10000) + 1
}

/// The low end of the `n`-th range window; each window spans 50 keys.
pub open spec fn range_low_of(n: int) -> int {
    ((140014 + n * 137) % 9950) + 1
}

/// The 100 ids that the lookups ask for.
pub fn primary_key_lookup_ids() -> (ids: Vec<usize>)
    ensures
        ids@.len() == 100,
        forall|n: int| 0 <= n < 100 ==> #[trigger] ids@[n] == lookup_id_of(n),
{
    let mut ids: Vec<usize> = Vec::new();
    let mut n: usize = 0;
    while n < 100
        invariant
            n <= 100,
            ids@.len() == n,
            forall|k: int| 0 <= k < n ==> #[trigger] ids@[k] == lookup_id_of(k),
        decreases 100 - n,
    {
        ids.push(((DETERMINISTIC_SEED + n * 9973) % ROW_COUNT) + 1);
        n = n + 1;
    }
    ids
}

/// The 100 group keys that the equality queries ask for.
pub fn equality_keys() -> (keys: Vec<usize>)
    ensures
        keys@.len() == 100,
        forall|n: int| 0 <= n < 100 ==> #[trigger] keys@[n] == equality_key_of(n),
{
    let mut keys: Vec<usize> = Vec::new();
    let mut n: usize = 0;
    while n < 100
        invariant
            n <= 100,
            keys@.len() == n,
            forall|k: int| 0 <= k < n ==> #[trigger] keys@[k] == equality_key_of(k),
        decreases 100 - n,
    {
        keys.push(((DETERMINISTIC_SEED + n * 433) % 10000) + 1);
        n = n + 1;
    }
    keys
}

/// The 50 windows `(low, low + 49)` of the range queries.
pub fn range_windows() -> (windows: Vec<(usize, usize)>)
    ensures
        windows@.len() == 50,
        forall|n: int|
            0 <= n < 50 ==> #[trigger] windows@[n] == (range_low_of(n) as usize, (range_low_of(n) + 49) as usize),
{
    let mut windows: Vec<(usize, usize)> = Vec::new();
    let mut n: usize = 0;
    while n < 50
        invariant
            n <= 50,
            windows@.len() == n,
            forall|k: int|
                0 <= k < n ==> #[trigger] windows@[k] == (range_low_of(k) as usize, (range_low_of(k) + 49) as usize),
        decreases 50 - n,
    {
        let low = ((DETERMINISTIC_SEED + n * 137) % 9950) + 1;
        windows.push((low, low + 49));
        n = n + 1;
    }
    windows
}

/// `usize::to_string`: the decimal digits of `n`, as its `Display`
/// writes them.
#[verifier::external_body]
pub(crate) fn decimal_string(n: usize) -> (r: String)
    ensures
        r@ == count_chars(n as int),
{
    n.to_string()
}

/// The decimal digits of a count, as characters.
pub open spec fn count_chars(n: int) -> Seq<char> {
    crate::text::decimal(n).map_values(|b: u8| b as char)
}

/// The text of a query: `head`, the number, then `;`.
pub open spec fn query_text(head: Seq<char>, n: int) -> Seq<char> {
    head + count_chars(n) + ";"@
}

fn query_with(head: &str, n: usize) -> (q: String)
    ensures
        q@ == query_text(head@, n as int),
{
    let mut q = String::from_str(head);
    q.append(decimal_string(n).as_str());
    q.append(";");
    q
}

/// One lookup by id per lookup id.
pub fn primary_key_queries() -> (qs: Vec<String>)
    ensures
        qs@.len() == 100,
        forall|n: int|
            0 <= n < 100 ==> #[trigger] qs@[n]@ == query_text(
                "SELECT * FROM bench_items WHERE id = "@,
                lookup_id_of(n),
            ),
{
    let ids = primary_key_lookup_ids();
    let mut qs: Vec<String> = Vec::new();
    let mut n: usize = 0;
    while n < 100
        invariant
            n <= 100,
            ids@.len() == 100,
            forall|k: int| 0 <= k < 100 ==> #[trigger] ids@[k] == lookup_id_of(k),
            qs@.len() == n,
            forall|k: int|
                0 <= k < n ==> #[trigger] qs@[k]@ == query_text("SELECT * FROM bench_items WHERE id = "@, lookup_id_of(k)),
        decreases 100 - n,
    {
        qs.push(query_with("SELECT * FROM bench_items WHERE id = ", ids[n]));
        n = n + 1;
    }
    qs
}

/// One equality query on `group_key` per key.
pub fn equality_queries() -> (qs: Vec<String>)
    ensures
        qs@.len() == 100,
        forall|n: int|
            0 <= n < 100 ==> #[trigger] qs@[n]@ == query_text(
                "SELECT * FROM bench_items WHERE group_key = "@,
                equality_key_of(n),
            ),
{
    let keys = equality_keys();
    let mut qs: Vec<String> = Vec::new();
    let mut n: usize = 0;
    while n < 100
        invariant
            n <= 100,
            keys@.len() == 100,
            forall|k: int| 0 <= k < 100 ==> #[trigger] keys@[k] == equality_key_of(k),
            qs@.len() == n,
            forall|k: int|
                0 <= k < n ==> #[trigger] qs@[k]@ == query_text(
                    "SELECT * FROM bench_items WHERE group_key = "@,
                    equality_key_of(k),
                ),
        decreases 100 - n,
    {
        qs.push(query_with("SELECT * FROM bench_items WHERE group_key = ", keys[n]));
        n = n + 1;
    }
    qs
}

/// The text of the range query over `low..=high`.
pub open spec fn range_query_text(low: int, high: int) -> Seq<char> {
    "SELECT * FROM bench_items WHERE group_key BETWEEN "@ + count_chars(low) + " AND "@ + count_chars(high) + ";"@
}

/// One `BETWEEN` query per window.
pub fn range_queries() -> (qs: Vec<String>)
    ensures
        qs@.len() == 50,
        forall|n: int|
            0 <= n < 50 ==> #[trigger] qs@[n]@ == range_query_text(range_low_of(n), range_low_of(n) + 49),
{
    let windows = range_windows();
    let mut qs: Vec<String> = Vec::new();
    let mut n: usize = 0;
    while n < 50
        invariant
            n <= 50,
            windows@.len() == 50,
            forall|k: int|
                0 <= k < 50 ==> #[trigger] windows@[k] == (range_low_of(k) as usize, (range_low_of(k) + 49) as usize),
            qs@.len() == n,
            forall|k: int| 0 <= k < n ==> #[trigger] qs@[k]@ == range_query_text(range_low_of(k), range_low_of(k) + 49),
        decreases 50 - n,
    {
        let (low, high) = windows[n];
        let mut q = String::from_str("SELECT * FROM bench_items WHERE group_key BETWEEN ");
        q.append(decimal_string(low).as_str());
        q.append(" AND ");
        q.append(decimal_string(high).as_str());
        q.append(";");
        qs.push(q);
        n = n + 1;
    }
    qs
}

/// The line a row prints: `id|group_key|payload` and a newline.
pub open spec fn row_line(row: BenchRow) -> Seq<u8> {
    digits_of(row.id as nat) + seq![124u8] + digits_of(row.group_key as nat) + seq![124u8] + row.payload@ + seq![10u8]
}

/// Appends the row's line.
pub fn write_row(out: &mut Vec<u8>, row: &BenchRow)
    ensures
        final(out)@ == old(out)@ + row_line(*row),
{
    let id = u64_digits(row.id as u64);
    push_all(out, id.as_slice());
    out.push(124u8);
    let key = u64_digits(row.group_key as u64);
    push_all(out, key.as_slice());
    out.push(124u8);
    push_all(out, row.payload.as_slice());
    out.push(10u8);
    assert(final(out)@ =~= old(out)@ + row_line(*row));
}

/// The header line of every query's output.
pub open spec fn header_line() -> Seq<u8> {
    "id|group_key|payload\n".spec_bytes()
}

/// What a query that finds just `row` prints.
pub fn row_output(row: &BenchRow) -> (out: Vec<u8>)
    ensures
        out@ == header_line() + row_line(*row),
{
    let mut out: Vec<u8> = Vec::new();
    push_all(&mut out, "id|group_key|payload\n".as_bytes());
    write_row(&mut out, row);
    out
}

/// The SQL text that creates the table and its index and inserts `rows`.
pub open spec fn insert_sql_text(rows: Seq<BenchRow>) -> Seq<u8>
    decreases rows.len(),
{
    if rows.len() == 0 {
        "CREATE TABLE bench_items(id INTEGER PRIMARY KEY, group_key INTEGER, payload TEXT);".spec_bytes()
            + " CREATE INDEX idx_section14_bench_group_key ON bench_items(group_key);".spec_bytes()
    } else {
        let r = rows.last();
        insert_sql_text(rows.drop_last()) + " INSERT INTO bench_items VALUES (".spec_bytes() + digits_of(r.id as nat)
            + ", ".spec_bytes() + digits_of(r.group_key as nat) + ", '".spec_bytes() + r.payload@ + "');".spec_bytes()
    }
}

/// The SQL text that creates the benchmark table and its index and
/// inserts the rows.
pub fn section14_insert_sql(rows: &Vec<BenchRow>) -> (sql: Vec<u8>)
    ensures
        sql@ == insert_sql_text(rows@),
{
    let mut sql: Vec<u8> = Vec::new();
    push_all(&mut sql, "CREATE TABLE bench_items(id INTEGER PRIMARY KEY, group_key INTEGER, payload TEXT);".as_bytes());
    push_all(&mut sql, " CREATE INDEX idx_section14_bench_group_key ON bench_items(group_key);".as_bytes());
    let n = rows.len();
    let mut i: usize = 0;
    assert(rows@.subrange(0, 0).len() == 0);
    while i < n
        invariant
            n == rows@.len(),
            i <= n,
            sql@ == insert_sql_text(rows@.subrange(0, i as int)),
        decreases n - i,
    {
        let r = &rows[i];
        assert(rows@.subrange(0, i + 1).drop_last() =~= rows@.subrange(0, i as int));
        assert(rows@.subrange(0, i + 1).last() == *r);
        push_all(&mut sql, " INSERT INTO bench_items VALUES (".as_bytes());
        let id = u64_digits(r.id as u64);
        push_all(&mut sql, id.as_slice());
        push_all(&mut sql, ", ".as_bytes());
        let key = u64_digits(r.group_key as u64);
        push_all(&mut sql, key.as_slice());
        push_all(&mut sql, ", '".as_bytes());
        push_all(&mut sql, r.payload.as_slice());
        push_all(&mut sql, "');".as_bytes());
        i = i + 1;
    }
    assert(rows@.subrange(0, n as int) =~= rows@);
    sql
}

/// The digest folded over a row's payload bytes.
pub open spec fn fold_bytes(d: u64, p: Seq<u8>) -> u64
    decreases p.len(),
{
    if p.len() == 0 {
        d
    } else {
        fold_bytes(d, p.drop_last()).wrapping_mul(16777619) ^ (p.last() as u64)
    }
}

/// The digest after one more row.
pub open spec fn row_digest(d: u64, row: BenchRow) -> u64 {
    fold_bytes(d.wrapping_mul(16777619).wrapping_add(row.id as u64).wrapping_add(row.group_key as u64), row.payload@)
}

/// The digest the scan folds over every row it reads.
pub open spec fn scan_digest(rows: Seq<BenchRow>) -> u64
    decreases rows.len(),
{
    if rows.len() == 0 {
        0
    } else {
        row_digest(scan_digest(rows.drop_last()), rows.last())
    }
}

/// The rows whose group key lies in `low..=high`, in their order.
pub open spec fn window_rows(rows: Seq<BenchRow>, low: int, high: int) -> Seq<BenchRow>
    decreases rows.len(),
{
    if rows.len() == 0 {
        Seq::empty()
    } else if low <= rows.last().group_key <= high {
        window_rows(rows.drop_last(), low, high).push(rows.last())
    } else {
        window_rows(rows.drop_last(), low, high)
    }
}

/// The lines of the rows whose group key is `key`, in their order.
pub open spec fn key_lines(rows: Seq<BenchRow>, key: int) -> Seq<u8>
    decreases rows.len(),
{
    if rows.len() == 0 {
        Seq::empty()
    } else if rows.last().group_key == key {
        key_lines(rows.drop_last(), key) + row_line(rows.last())
    } else {
        key_lines(rows.drop_last(), key)
    }
}

/// The lines of the rows with a group key in `low..=high`: by group key,
/// and the rows of one key in their order. Rows in ascending id order
/// come out ordered by (group key, id).
pub open spec fn window_lines(rows: Seq<BenchRow>, low: int, high: int) -> Seq<u8>
    decreases high - low + 1,
{
    if high < low {
        Seq::empty()
    } else {
        window_lines(rows, low, high - 1) + key_lines(rows, high)
    }
}

/// What the explicit scan prints for the window: the header, the matching
/// rows, and one more newline in the one case that the digest of all rows
/// is `u64::MAX`.
pub open spec fn scan_output(rows: Seq<BenchRow>, low: int, high: int) -> Seq<u8> {
    header_line() + window_lines(rows, low, high) + if scan_digest(rows) == u64::MAX {
        seq![10u8]
    } else {
        Seq::<u8>::empty()
    }
}

proof fn lemma_key_lines_window(rows: Seq<BenchRow>, low: int, high: int, key: int)
    requires
        low <= key <= high,
    ensures
        key_lines(window_rows(rows, low, high), key) == key_lines(rows, key),
    decreases rows.len(),
{
    if rows.len() > 0 {
        lemma_key_lines_window(rows.drop_last(), low, high, key);
        let w = window_rows(rows.drop_last(), low, high);
        if low <= rows.last().group_key <= high {
            assert(w.push(rows.last()).drop_last() =~= w);
        }
    }
}

fn fold_payload(d: u64, p: &[u8]) -> (r: u64)
    ensures
        r == fold_bytes(d, p@),
{
    let mut h = d;
    let n = p.len();
    let mut i: usize = 0;
    assert(p@.subrange(0, 0) =~= Seq::<u8>::empty());
    while i < n
        invariant
            n == p@.len(),
            i <= n,
            h == fold_bytes(d, p@.subrange(0, i as int)),
        decreases n - i,
    {
        assert(p@.subrange(0, i + 1).drop_last() =~= p@.subrange(0, i as int));
        h = h.wrapping_mul(16777619) ^ (p[i] as u64);
        i = i + 1;
    }
    assert(p@.subrange(0, n as int) =~= p@);
    h
}

/// Reads every row, folding it into the digest,
/// keeps the rows whose group key lies in `low..=high`, and prints them
/// ordered by group key.
pub fn explicit_scan_output(rows: &Vec<BenchRow>, low: usize, high: usize) -> (out: Vec<u8>)
    ensures
        out@ == scan_output(rows@, low as int, high as int),
{
    let n = rows.len();
    let mut digest: u64 = 0;
    let mut matches: Vec<usize> = Vec::new();
    let mut i: usize = 0;
    assert(rows@.subrange(0, 0) =~= Seq::<BenchRow>::empty());
    while i < n
        invariant
            n == rows@.len(),
            i <= n,
            digest == scan_digest(rows@.subrange(0, i as int)),
            forall|k: int| 0 <= k < matches@.len() ==> #[trigger] matches@[k] < n,
            matches@.map_values(|k: usize| rows@[k as int]) == window_rows(rows@.subrange(0, i as int), low as int, high as int),
        decreases n - i,
    {
        let row = &rows[i];
        assert(rows@.subrange(0, i + 1).drop_last() =~= rows@.subrange(0, i as int));
        assert(rows@.subrange(0, i + 1).last() == *row);
        let ghost before = matches@;
        digest = digest.wrapping_mul(16777619).wrapping_add(row.id as u64).wrapping_add(row.group_key as u64);
        digest = fold_payload(digest, row.payload.as_slice());
        if low <= row.group_key && row.group_key <= high {
            matches.push(i);
            assert(matches@.map_values(|k: usize| rows@[k as int]) =~= before.map_values(|k: usize| rows@[k as int]).push(
                *row,
            ));
        }
        i = i + 1;
    }
    assert(rows@.subrange(0, n as int) =~= rows@);
    let ghost mv = matches@.map_values(|k: usize| rows@[k as int]);
    let mut out: Vec<u8> = Vec::new();
    push_all(&mut out, "id|group_key|payload\n".as_bytes());
    let ghost head = out@;
    let m = matches.len();
    if low <= high {
        let mut key = low;
        loop
            invariant_except_break
                out@ == head + window_lines(rows@, low as int, key - 1),
            invariant
                low <= key <= high,
                m == matches@.len(),
                n == rows@.len(),
                forall|k: int| 0 <= k < m ==> #[trigger] matches@[k] < n,
                mv == matches@.map_values(|k: usize| rows@[k as int]),
                mv == window_rows(rows@, low as int, high as int),
            ensures
                out@ == head + window_lines(rows@, low as int, high as int),
            decreases high - key,
        {
            let ghost start = out@;
            let mut j: usize = 0;
            assert(mv.subrange(0, 0) =~= Seq::<BenchRow>::empty());
            while j < m
                invariant
                    j <= m,
                    m == matches@.len(),
                    n == rows@.len(),
                    forall|k: int| 0 <= k < m ==> #[trigger] matches@[k] < n,
                    mv == matches@.map_values(|k: usize| rows@[k as int]),
                    out@ == start + key_lines(mv.subrange(0, j as int), key as int),
                decreases m - j,
            {
                let row = &rows[matches[j]];
                assert(mv.subrange(0, j + 1).drop_last() =~= mv.subrange(0, j as int));
                assert(mv.subrange(0, j + 1).last() == *row);
                if row.group_key == key {
                    write_row(&mut out, row);
                    assert(out@ =~= start + key_lines(mv.subrange(0, j + 1), key as int));
                }
                j = j + 1;
            }
            assert(mv.subrange(0, m as int) =~= mv);
            proof {
                lemma_key_lines_window(rows@, low as int, high as int, key as int);
            }
            assert(out@ =~= head + window_lines(rows@, low as int, key as int));
            if key == high {
                break;
            }
            key = key + 1;
        }
    }
    assert(out@ =~= header_line() + window_lines(rows@, low as int, high as int));
    if digest == u64::MAX {
        out.push(10u8);
    }
    assert(out@ =~= scan_output(rows@, low as int, high as int));
    out
}

/// The number of newline bytes.
pub open spec fn newlines(s: Seq<u8>) -> int
    decreases s.len(),
{
    if s.len() == 0 {
        0
    } else {
        newlines(s.drop_last()) + if s.last() == 10u8 {
            1int
        } else {
            0int
        }
    }
}

proof fn lemma_newlines_bound(s: Seq<u8>)
    ensures
        0 <= newlines(s) <= s.len(),
    decreases s.len(),
{
    if s.len() > 0 {
        lemma_newlines_bound(s.drop_last());
    }
}

/// The number of lines, as `str::lines` yields them: a last line without a
/// newline counts too.
pub open spec fn line_count(s: Seq<u8>) -> int {
    newlines(s) + if s.len() > 0 && s.last() != 10u8 {
        1int
    } else {
        0int
    }
}

/// The number of lines after the header.
pub open spec fn rows_counted(s: Seq<u8>) -> int {
    if line_count(s) == 0 {
        0
    } else {
        line_count(s) - 1
    }
}

/// The lines of a query's output after its header.
pub fn count_rows(output: &[u8]) -> (c: usize)
    ensures
        c == rows_counted(output@),
{
    let n = output.len();
    let mut lines: usize = 0;
    let mut i: usize = 0;
    assert(output@.subrange(0, 0) =~= Seq::<u8>::empty());
    while i < n
        invariant
            n == output@.len(),
            i <= n,
            lines <= i,
            lines == newlines(output@.subrange(0, i as int)),
        decreases n - i,
    {
        assert(output@.subrange(0, i + 1).drop_last() =~= output@.subrange(0, i as int));
        if output[i] == 10u8 {
            lines = lines + 1;
        }
        i = i + 1;
    }
    assert(output@.subrange(0, n as int) =~= output@);
    if n > 0 && output[n - 1] != 10u8 {
        proof {
            lemma_newlines_bound(output@.drop_last());
        }
        lines = lines + 1;
    }
    if lines == 0 {
        0
    } else {
        lines - 1
    }
}

/// The FNV-1a hash of the bytes.
pub open spec fn fnv_hash(s: Seq<u8>) -> u64
    decreases s.len(),
{
    if s.len() == 0 {
        14695981039346656037u64
    } else {
        (fnv_hash(s.drop_last()) ^ (s.last() as u64)).wrapping_mul(1099511628211)
    }
}

/// The FNV-1a hash of the bytes.
pub fn stable_hash(value: &[u8]) -> (h: u64)
    ensures
        h == fnv_hash(value@),
{
    let mut h: u64 = 14695981039346656037;
    let n = value.len();
    let mut i: usize = 0;
    assert(value@.subrange(0, 0) =~= Seq::<u8>::empty());
    while i < n
        invariant
            n == value@.len(),
            i <= n,
            h == fnv_hash(value@.subrange(0, i as int)),
        decreases n - i,
    {
        assert(value@.subrange(0, i + 1).drop_last() =~= value@.subrange(0, i as int));
        h = h ^ (value[i] as u64);
        h = h.wrapping_mul(1099511628211);
        i = i + 1;
    }
    assert(value@.subrange(0, n as int) =~= value@);
    h
}

} // verus!
