//! The lexical layer of SQL text, over its UTF-8 bytes: Unicode white space
//! and trimming, words, keywords, identifiers and literals.
use crate::bytes::copy_range;
use crate::text::{is_ident_continue, is_ident_start, is_identifier_continue, is_identifier_start, is_space, is_space_byte, lower};
use vstd::prelude::*;

verus! {

/// A one-byte Unicode white-space character: tab, line feed, vertical tab,
/// form feed, carriage return or space.
pub open spec fn is_ws1(b: u8) -> bool {
    (9 <= b <= 13) || b == 32
}

/// A three-byte Unicode white-space character (U+1680, U+2000 to U+200A,
/// U+2028, U+2029, U+202F, U+205F, U+3000).
pub open spec fn is_ws3(a: u8, b: u8, c: u8) -> bool {
    ||| (a == 0xE1u8 && b == 0x9Au8 && c == 0x80u8)
    ||| (a == 0xE2u8 && b == 0x80u8 && ((0x80u8 <= c <= 0x8Au8) || c == 0xA8u8 || c == 0xA9u8 || c == 0xAFu8))
    ||| (a == 0xE2u8 && b == 0x81u8 && c == 0x9Fu8)
    ||| (a == 0xE3u8 && b == 0x80u8 && c == 0x80u8)
}

/// The length of the Unicode white-space character (as `char::is_whitespace`
/// knows it) that starts at `i`, or 0 if none does.
pub open spec fn ws_at(s: Seq<u8>, i: int) -> int {
    if i < 0 || i >= s.len() {
        0
    } else if is_ws1(s[i]) {
        1
    } else if i + 1 < s.len() && s[i] == 0xC2u8 && (s[i + 1] == 0x85u8 || s[i + 1] == 0xA0u8) {
        2
    } else if i + 2 < s.len() && is_ws3(s[i], s[i + 1], s[i + 2]) {
        3
    } else {
        0
    }
}

/// The length of the white-space character that ends just before `j`, or 0.
pub open spec fn ws_before(s: Seq<u8>, j: int) -> int {
    if j <= 0 || j > s.len() {
        0
    } else if is_ws1(s[j - 1]) {
        1
    } else if j >= 2 && s[j - 2] == 0xC2u8 && (s[j - 1] == 0x85u8 || s[j - 1] == 0xA0u8) {
        2
    } else if j >= 3 && is_ws3(s[j - 3], s[j - 2], s[j - 1]) {
        3
    } else {
        0
    }
}

/// The first position from `i` on that does not start white space.
pub open spec fn skip_ws(s: Seq<u8>, i: int) -> int
    decreases s.len() - i,
{
    if ws_at(s, i) > 0 {
        skip_ws(s, i + ws_at(s, i))
    } else {
        i
    }
}

/// The end, going back from `j` but not before `lo`, of the text before
/// trailing white space.
pub open spec fn skip_ws_back(s: Seq<u8>, lo: int, j: int) -> int
    decreases j,
{
    if j > lo && ws_before(s, j) > 0 && j - ws_before(s, j) >= lo {
        skip_ws_back(s, lo, j - ws_before(s, j))
    } else {
        j
    }
}

/// The text without leading and trailing white space.
pub open spec fn trim(s: Seq<u8>) -> Seq<u8> {
    let a = skip_ws(s, 0);
    s.subrange(a, skip_ws_back(s, a, s.len() as int))
}

pub proof fn lemma_skip_ws(s: Seq<u8>, i: int)
    requires
        0 <= i <= s.len(),
    ensures
        i <= skip_ws(s, i) <= s.len(),
        ws_at(s, skip_ws(s, i)) == 0,
    decreases s.len() - i,
{
    if ws_at(s, i) > 0 {
        lemma_skip_ws(s, i + ws_at(s, i));
    }
}

pub proof fn lemma_skip_ws_back(s: Seq<u8>, lo: int, j: int)
    requires
        0 <= lo <= j <= s.len(),
    ensures
        lo <= skip_ws_back(s, lo, j) <= j,
    decreases j,
{
    if j > lo && ws_before(s, j) > 0 && j - ws_before(s, j) >= lo {
        lemma_skip_ws_back(s, lo, j - ws_before(s, j));
    }
}

/// The length of the white-space character at `i`.
pub fn ws_len_at(s: &[u8], i: usize) -> (r: usize)
    ensures
        r == ws_at(s@, i as int),
        i <= s@.len() ==> i + r <= s@.len(),
{
    let n = s.len();
    if i >= n {
        return 0;
    }
    let a = s[i];
    if (a >= 9 && a <= 13) || a == 32 {
        return 1;
    }
    if i + 1 < n && a == 0xC2u8 && (s[i + 1] == 0x85u8 || s[i + 1] == 0xA0u8) {
        return 2;
    }
    if n - i > 2 {
        let b = s[i + 1];
        let c = s[i + 2];
        if (a == 0xE1u8 && b == 0x9Au8 && c == 0x80u8) || (a == 0xE2u8 && b == 0x80u8 && ((c >= 0x80u8
            && c <= 0x8Au8) || c == 0xA8u8 || c == 0xA9u8 || c == 0xAFu8)) || (a == 0xE2u8 && b
            == 0x81u8 && c == 0x9Fu8) || (a == 0xE3u8 && b == 0x80u8 && c == 0x80u8) {
            return 3;
        }
    }
    0
}

/// The length of the white-space character that ends before `j`.
pub fn ws_len_before(s: &[u8], j: usize) -> (r: usize)
    ensures
        r == ws_before(s@, j as int),
{
    let n = s.len();
    if j == 0 || j > n {
        return 0;
    }
    let z = s[j - 1];
    if (z >= 9 && z <= 13) || z == 32 {
        return 1;
    }
    if j >= 2 && s[j - 2] == 0xC2u8 && (z == 0x85u8 || z == 0xA0u8) {
        return 2;
    }
    if j >= 3 {
        let a = s[j - 3];
        let b = s[j - 2];
        let c = z;
        if (a == 0xE1u8 && b == 0x9Au8 && c == 0x80u8) || (a == 0xE2u8 && b == 0x80u8 && ((c >= 0x80u8
            && c <= 0x8Au8) || c == 0xA8u8 || c == 0xA9u8 || c == 0xAFu8)) || (a == 0xE2u8 && b
            == 0x81u8 && c == 0x9Fu8) || (a == 0xE3u8 && b == 0x80u8 && c == 0x80u8) {
            return 3;
        }
    }
    0
}

/// The first position from `i` on that does not start white space.
pub fn skip_white(s: &[u8], i: usize) -> (r: usize)
    requires
        i <= s@.len(),
    ensures
        r == skip_ws(s@, i as int),
        i <= r <= s@.len(),
{
    let n = s.len();
    let mut k = i;
    while ws_len_at(s, k) > 0
        invariant
            n == s@.len(),
            i <= k <= s@.len(),
            skip_ws(s@, k as int) == skip_ws(s@, i as int),
        decreases s@.len() - k,
    {
        let w = ws_len_at(s, k);
        k = k + w;
    }
    k
}

/// The text without leading and trailing white space, as a copy.
pub fn trim_copy(s: &[u8]) -> (r: Vec<u8>)
    ensures
        r@ == trim(s@),
{
    let a = skip_white(s, 0);
    let mut j = s.len();
    while j > a && ws_len_before(s, j) > 0 && j - ws_len_before(s, j) >= a
        invariant
            a <= j <= s@.len(),
            a == skip_ws(s@, 0),
            skip_ws_back(s@, a as int, j as int) == skip_ws_back(s@, a as int, s@.len() as int),
        decreases j,
    {
        j = j - ws_len_before(s, j);
    }
    copy_range(s, a, j)
}

/// The end of the word that starts at `i`: the first white space or the end.
pub open spec fn word_end(s: Seq<u8>, i: int) -> int
    decreases s.len() - i,
{
    if 0 <= i < s.len() && ws_at(s, i) == 0 {
        word_end(s, i + 1)
    } else {
        i
    }
}

/// The maximal runs without white space, from `i` on.
pub open spec fn words(s: Seq<u8>, i: int) -> Seq<Seq<u8>>
    decreases s.len() - i,
{
    if i < 0 || i > s.len() {
        Seq::empty()
    } else {
        let a = skip_ws(s, i);
        if a >= s.len() {
            Seq::empty()
        } else {
            proof {
                lemma_skip_ws(s, i);
                lemma_word_end(s, a + 1);
            }
            seq![s.subrange(a, word_end(s, a))] + words(s, word_end(s, a))
        }
    }
}

pub proof fn lemma_word_end(s: Seq<u8>, i: int)
    requires
        0 <= i <= s.len(),
    ensures
        i <= word_end(s, i) <= s.len(),
    decreases s.len() - i,
{
    if 0 <= i < s.len() && ws_at(s, i) == 0 {
        lemma_word_end(s, i + 1);
    }
}

/// The words of `s`.
pub fn split_words(s: &[u8]) -> (r: Vec<Vec<u8>>)
    ensures
        r@.map_values(|w: Vec<u8>| w@) == words(s@, 0),
{
    let mut out: Vec<Vec<u8>> = Vec::new();
    let mut i: usize = 0;
    let ghost acc: Seq<Seq<u8>> = Seq::empty();
    while i < s.len()
        invariant
            i <= s@.len(),
            out@.map_values(|w: Vec<u8>| w@) + words(s@, i as int) == words(s@, 0),
        decreases s@.len() - i,
    {
        let a = skip_white(s, i);
        proof {
            lemma_skip_ws(s@, i as int);
        }
        if a >= s.len() {
            assert(words(s@, i as int) =~= Seq::<Seq<u8>>::empty());
            assert(words(s@, s@.len() as int) =~= Seq::<Seq<u8>>::empty());
            assert(out@.map_values(|w: Vec<u8>| w@) + words(s@, s@.len() as int) =~= words(s@, 0));
            i = s.len();
        } else {
        let mut e = a;
        while e < s.len() && ws_len_at(s, e) == 0
            invariant
                a <= e <= s@.len(),
                word_end(s@, e as int) == word_end(s@, a as int),
            decreases s@.len() - e,
        {
            e = e + 1;
        }
        let w = copy_range(s, a, e);
        let ghost before = out@;
        out.push(w);
        proof {
            assert(out@.map_values(|w: Vec<u8>| w@) =~= before.map_values(|w: Vec<u8>| w@).push(w@));
            assert(words(s@, i as int) == seq![s@.subrange(a as int, e as int)] + words(s@, e as int));
        }
        i = e;
        assert(out@.map_values(|w: Vec<u8>| w@) + words(s@, i as int) =~= words(s@, 0));
        }
    }
    assert(words(s@, i as int) =~= Seq::<Seq<u8>>::empty());
    assert(out@.map_values(|w: Vec<u8>| w@) =~= words(s@, 0));
    out
}

/// The keywords of the SQL subset.
#[derive(Debug, Clone, Copy, PartialEq, Eq, Structural)]
pub enum Keyword {
    Create,
    Index,
    On,
    Table,
    Insert,
    Into,
    Values,
    Update,
    SetKeyword,
    Where,
    Delete,
    From,
    Select,
    Between,
    And,
    Integer,
    Int,
    Text,
    Primary,
    Key,
    Order,
    Join,
}

/// The spelling of a keyword.
pub open spec fn kw_text(k: Keyword) -> Seq<u8> {
    match k {
        Keyword::Create => seq![67u8, 82u8, 69u8, 65u8, 84u8, 69u8],
        Keyword::Index => seq![73u8, 78u8, 68u8, 69u8, 88u8],
        Keyword::On => seq![79u8, 78u8],
        Keyword::Table => seq![84u8, 65u8, 66u8, 76u8, 69u8],
        Keyword::Insert => seq![73u8, 78u8, 83u8, 69u8, 82u8, 84u8],
        Keyword::Into => seq![73u8, 78u8, 84u8, 79u8],
        Keyword::Values => seq![86u8, 65u8, 76u8, 85u8, 69u8, 83u8],
        Keyword::Update => seq![85u8, 80u8, 68u8, 65u8, 84u8, 69u8],
        Keyword::SetKeyword => seq![83u8, 69u8, 84u8],
        Keyword::Where => seq![87u8, 72u8, 69u8, 82u8, 69u8],
        Keyword::Delete => seq![68u8, 69u8, 76u8, 69u8, 84u8, 69u8],
        Keyword::From => seq![70u8, 82u8, 79u8, 77u8],
        Keyword::Select => seq![83u8, 69u8, 76u8, 69u8, 67u8, 84u8],
        Keyword::Between => seq![66u8, 69u8, 84u8, 87u8, 69u8, 69u8, 78u8],
        Keyword::And => seq![65u8, 78u8, 68u8],
        Keyword::Integer => seq![73u8, 78u8, 84u8, 69u8, 71u8, 69u8, 82u8],
        Keyword::Int => seq![73u8, 78u8, 84u8],
        Keyword::Text => seq![84u8, 69u8, 88u8, 84u8],
        Keyword::Primary => seq![80u8, 82u8, 73u8, 77u8, 65u8, 82u8, 89u8],
        Keyword::Key => seq![75u8, 69u8, 89u8],
        Keyword::Order => seq![79u8, 82u8, 68u8, 69u8, 82u8],
        Keyword::Join => seq![74u8, 79u8, 73u8, 78u8],
    }
}

/// The spelling of a keyword.
pub fn keyword_text(k: Keyword) -> (r: Vec<u8>)
    ensures
        r@ == kw_text(k),
{
    let r = match k {
        Keyword::Create => vec![67u8, 82u8, 69u8, 65u8, 84u8, 69u8],
        Keyword::Index => vec![73u8, 78u8, 68u8, 69u8, 88u8],
        Keyword::On => vec![79u8, 78u8],
        Keyword::Table => vec![84u8, 65u8, 66u8, 76u8, 69u8],
        Keyword::Insert => vec![73u8, 78u8, 83u8, 69u8, 82u8, 84u8],
        Keyword::Into => vec![73u8, 78u8, 84u8, 79u8],
        Keyword::Values => vec![86u8, 65u8, 76u8, 85u8, 69u8, 83u8],
        Keyword::Update => vec![85u8, 80u8, 68u8, 65u8, 84u8, 69u8],
        Keyword::SetKeyword => vec![83u8, 69u8, 84u8],
        Keyword::Where => vec![87u8, 72u8, 69u8, 82u8, 69u8],
        Keyword::Delete => vec![68u8, 69u8, 76u8, 69u8, 84u8, 69u8],
        Keyword::From => vec![70u8, 82u8, 79u8, 77u8],
        Keyword::Select => vec![83u8, 69u8, 76u8, 69u8, 67u8, 84u8],
        Keyword::Between => vec![66u8, 69u8, 84u8, 87u8, 69u8, 69u8, 78u8],
        Keyword::And => vec![65u8, 78u8, 68u8],
        Keyword::Integer => vec![73u8, 78u8, 84u8, 69u8, 71u8, 69u8, 82u8],
        Keyword::Int => vec![73u8, 78u8, 84u8],
        Keyword::Text => vec![84u8, 69u8, 88u8, 84u8],
        Keyword::Primary => vec![80u8, 82u8, 73u8, 77u8, 65u8, 82u8, 89u8],
        Keyword::Key => vec![75u8, 69u8, 89u8],
        Keyword::Order => vec![79u8, 82u8, 68u8, 69u8, 82u8],
        Keyword::Join => vec![74u8, 79u8, 73u8, 78u8],
    };
    assert(r@ =~= kw_text(k));
    r
}

/// The keyword at `i`, in any letter case, not followed by a letter, digit
/// or `_`: the position after it.
pub open spec fn sp_keyword(s: Seq<u8>, i: int, k: Keyword) -> Option<int> {
    let end = i + kw_text(k).len();
    if 0 <= i && end <= s.len() && lower(s.subrange(i, end)) == lower(kw_text(k)) && !(end < s.len()
        && is_ident_continue(s[end])) {
        Some(end)
    } else {
        None
    }
}

/// The first position from `i` on that is not ASCII white space.
pub open spec fn sp_space(s: Seq<u8>, i: int) -> int
    decreases s.len() - i,
{
    if 0 <= i < s.len() && is_space(s[i]) {
        sp_space(s, i + 1)
    } else {
        i
    }
}

/// At least one ASCII white-space byte at `i`: the position after the run.
pub open spec fn sp_req_space(s: Seq<u8>, i: int) -> Option<int> {
    if sp_space(s, i) > i {
        Some(sp_space(s, i))
    } else {
        None
    }
}

/// The byte `c` at `i`: the position after it.
pub open spec fn sp_char(s: Seq<u8>, i: int, c: u8) -> Option<int> {
    if 0 <= i < s.len() && s[i] == c {
        Some(i + 1)
    } else {
        None
    }
}

/// The end of the run of letters, digits and `_` from `i` on.
pub open spec fn ident_end(s: Seq<u8>, i: int) -> int
    decreases s.len() - i,
{
    if 0 <= i < s.len() && is_ident_continue(s[i]) {
        ident_end(s, i + 1)
    } else {
        i
    }
}

/// An identifier at `i`: the position after it.
pub open spec fn sp_ident(s: Seq<u8>, i: int) -> Option<int> {
    if 0 <= i < s.len() && is_ident_start(s[i]) {
        Some(ident_end(s, i + 1))
    } else {
        None
    }
}

/// The end of the run of decimal digits from `i` on.
pub open spec fn digits_end(s: Seq<u8>, i: int) -> int
    decreases s.len() - i,
{
    if 0 <= i < s.len() && crate::text::is_digit(s[i]) {
        digits_end(s, i + 1)
    } else {
        i
    }
}

/// An integer literal at `i` (an optional sign, then digits) whose value
/// fits in an `i64`: the value and the position after it.
pub open spec fn sp_int(s: Seq<u8>, i: int) -> Option<(i64, int)> {
    let d = if 0 <= i < s.len() && (s[i] == 43u8 || s[i] == 45u8) {
        i + 1
    } else {
        i
    };
    let e = digits_end(s, d);
    if i < 0 || e == d {
        None
    } else {
        match crate::text::parse_int(s.subrange(i, e)) {
            Some(v) => Some((v, e)),
            None => None,
        }
    }
}

/// The first quote at or after `i`.
pub open spec fn quote_at_or_after(s: Seq<u8>, i: int) -> Option<int>
    decreases s.len() - i,
{
    if i < 0 || i >= s.len() {
        None
    } else if s[i] == 39u8 {
        Some(i)
    } else {
        quote_at_or_after(s, i + 1)
    }
}

/// Whether a quote opens text at `i`, given the state `in_text` before it.
pub open spec fn toggled(s: Seq<u8>, i: int, in_text: bool) -> bool {
    if s[i] == 39u8 {
        !in_text
    } else {
        in_text
    }
}

/// The first `)` at or after `i` that is not inside quoted text.
pub open spec fn close_paren(s: Seq<u8>, i: int, in_text: bool) -> Option<int>
    decreases s.len() - i,
{
    if i < 0 || i >= s.len() {
        None
    } else if s[i] == 41u8 && !toggled(s, i, in_text) {
        Some(i)
    } else {
        close_paren(s, i + 1, toggled(s, i, in_text))
    }
}

pub proof fn lemma_sp_space(s: Seq<u8>, i: int)
    requires
        0 <= i <= s.len(),
    ensures
        i <= sp_space(s, i) <= s.len(),
    decreases s.len() - i,
{
    if 0 <= i < s.len() && is_space(s[i]) {
        lemma_sp_space(s, i + 1);
    }
}

pub proof fn lemma_ident_end(s: Seq<u8>, i: int)
    requires
        0 <= i <= s.len(),
    ensures
        i <= ident_end(s, i) <= s.len(),
    decreases s.len() - i,
{
    if 0 <= i < s.len() && is_ident_continue(s[i]) {
        lemma_ident_end(s, i + 1);
    }
}

pub proof fn lemma_digits_end(s: Seq<u8>, i: int)
    requires
        0 <= i <= s.len(),
    ensures
        i <= digits_end(s, i) <= s.len(),
    decreases s.len() - i,
{
    if 0 <= i < s.len() && crate::text::is_digit(s[i]) {
        lemma_digits_end(s, i + 1);
    }
}

pub proof fn lemma_quote(s: Seq<u8>, i: int)
    requires
        0 <= i <= s.len(),
    ensures
        quote_at_or_after(s, i) matches Some(q) ==> i <= q < s.len() && s[q] == 39u8,
    decreases s.len() - i,
{
    if i < s.len() && s[i] != 39u8 {
        lemma_quote(s, i + 1);
    }
}

pub proof fn lemma_close_paren(s: Seq<u8>, i: int, t: bool)
    requires
        0 <= i <= s.len(),
    ensures
        close_paren(s, i, t) matches Some(q) ==> i <= q < s.len(),
    decreases s.len() - i,
{
    if i < s.len() && !(s[i] == 41u8 && !toggled(s, i, t)) {
        lemma_close_paren(s, i + 1, toggled(s, i, t));
    }
}

/// The keyword `k` at `i`.
pub fn keyword_at(s: &[u8], i: usize, k: Keyword) -> (r: Option<usize>)
    requires
        i <= s@.len(),
    ensures
        r == match sp_keyword(s@, i as int, k) {
            Some(e) => Some(e as usize),
            None => None::<usize>,
        },
        r matches Some(e) ==> e <= s@.len(),
        sp_keyword(s@, i as int, k) matches Some(e) ==> i <= e <= s.len(),
{
    let kw = keyword_text(k);
    if kw.len() > s.len() - i {
        return None;
    }
    let end = i + kw.len();
    let cand = copy_range(s, i, end);
    if !crate::text::eq_ignore_ascii_case(cand.as_slice(), kw.as_slice()) {
        return None;
    }
    if end < s.len() && is_identifier_continue(s[end]) {
        return None;
    }
    Some(end)
}

/// Skips ASCII white space from `i`.
pub fn space_at(s: &[u8], i: usize) -> (r: usize)
    requires
        i <= s@.len(),
    ensures
        r == sp_space(s@, i as int),
        i <= r <= s@.len(),
{
    let mut k = i;
    while k < s.len() && is_space_byte(s[k])
        invariant
            i <= k <= s@.len(),
            sp_space(s@, k as int) == sp_space(s@, i as int),
        decreases s@.len() - k,
    {
        k = k + 1;
    }
    k
}

/// An identifier at `i`.
pub fn ident_at(s: &[u8], i: usize) -> (r: Option<usize>)
    requires
        i <= s@.len(),
    ensures
        r == match sp_ident(s@, i as int) {
            Some(e) => Some(e as usize),
            None => None::<usize>,
        },
        r matches Some(e) ==> i < e <= s@.len(),
        sp_ident(s@, i as int) matches Some(e) ==> i < e <= s.len(),
{
    proof {
        if i < s@.len() {
            lemma_ident_end(s@, i + 1);
        }
    }
    if i >= s.len() || !is_identifier_start(s[i]) {
        return None;
    }
    let mut k = i + 1;
    while k < s.len() && is_identifier_continue(s[k])
        invariant
            i < k <= s@.len(),
            ident_end(s@, k as int) == ident_end(s@, i + 1),
        decreases s@.len() - k,
    {
        k = k + 1;
    }
    Some(k)
}

/// An integer literal at `i`.
pub fn int_at(s: &[u8], i: usize) -> (r: Option<(i64, usize)>)
    requires
        i <= s@.len(),
    ensures
        r == match sp_int(s@, i as int) {
            Some((v, e)) => Some((v, e as usize)),
            None => None::<(i64, usize)>,
        },
        r matches Some((_, e)) ==> i < e <= s@.len(),
        sp_int(s@, i as int) matches Some((_, e)) ==> i < e <= s.len(),
{
    proof {
        let d0 = if 0 <= i < s@.len() && (s@[i as int] == 43u8 || s@[i as int] == 45u8) {
            i + 1
        } else {
            i as int
        };
        lemma_digits_end(s@, d0);
    }
    let mut d = i;
    if i < s.len() && (s[i] == 43u8 || s[i] == 45u8) {
        d = i + 1;
    }
    let mut e = d;
    while e < s.len() && s[e] >= 48u8 && s[e] <= 57u8
        invariant
            d <= e <= s@.len(),
            digits_end(s@, e as int) == digits_end(s@, d as int),
        decreases s@.len() - e,
    {
        e = e + 1;
    }
    if e == d {
        return None;
    }
    let raw = copy_range(s, i, e);
    match crate::text::parse_i64(raw.as_slice()) {
        Some(v) => Some((v, e)),
        None => None,
    }
}

/// The first quote at or after `i`.
pub fn find_quote(s: &[u8], i: usize) -> (r: Option<usize>)
    requires
        i <= s@.len(),
    ensures
        r == match quote_at_or_after(s@, i as int) {
            Some(q) => Some(q as usize),
            None => None::<usize>,
        },
        quote_at_or_after(s@, i as int) matches Some(q) ==> i <= q < s.len() && s@[q] == 39u8,
{
    proof {
        lemma_quote(s@, i as int);
    }
    let mut k = i;
    while k < s.len() && s[k] != 39u8
        invariant
            i <= k <= s@.len(),
            quote_at_or_after(s@, k as int) == quote_at_or_after(s@, i as int),
        decreases s@.len() - k,
    {
        k = k + 1;
    }
    if k < s.len() {
        Some(k)
    } else {
        None
    }
}

/// The first `)` at or after `i` outside quoted text.
pub fn find_close_paren(s: &[u8], i: usize) -> (r: Option<usize>)
    requires
        i <= s@.len(),
    ensures
        r == match close_paren(s@, i as int, false) {
            Some(q) => Some(q as usize),
            None => None::<usize>,
        },
        r matches Some(q) ==> i <= q < s@.len(),
        close_paren(s@, i as int, false) matches Some(q) ==> i <= q < s.len(),
{
    proof {
        lemma_close_paren(s@, i as int, false);
    }
    let mut k = i;
    let mut in_text = false;
    while k < s.len()
        invariant
            i <= k <= s@.len(),
            close_paren(s@, k as int, in_text) == close_paren(s@, i as int, false),
        decreases s@.len() - k,
    {
        let t = if s[k] == 39u8 {
            !in_text
        } else {
            in_text
        };
        if s[k] == 41u8 && !t {
            return Some(k);
        }
        in_text = t;
        k = k + 1;
    }
    None
}

} // verus!
