//! ASCII text helpers over UTF-8 byte strings: decimal integers, case
//! folding, identifiers and whitespace.
use vstd::prelude::*;

verus! {

/// Whether `b` is an ASCII decimal digit.
pub open spec fn is_digit(b: u8) -> bool {
    48 <= b <= 57
}

/// Whether every byte of `s` is a decimal digit.
pub open spec fn all_digits(s: Seq<u8>) -> bool {
    forall|i: int| 0 <= i < s.len() ==> is_digit(#[trigger] s[i])
}

/// The value of a string of decimal digits.
pub open spec fn digits_value(s: Seq<u8>) -> int
    decreases s.len(),
{
    if s.len() == 0 {
        0
    } else {
        10 * digits_value(s.drop_last()) + (s.last() - 48)
    }
}

/// The shortest decimal digits of a natural number.
pub open spec fn digits_of(n: nat) -> Seq<u8>
    decreases n,
{
    if n < 10 {
        seq![(48 + n) as u8]
    } else {
        digits_of(n / 10).push((48 + n % 10) as u8)
    }
}

/// The decimal form of an integer, as `i64::to_string` writes it.
pub open spec fn decimal(i: int) -> Seq<u8> {
    if i < 0 {
        seq![45u8] + digits_of((-i) as nat)
    } else {
        digits_of(i as nat)
    }
}

/// The integer that a signed decimal literal denotes, if it is one and fits
/// in an `i64`: an optional `+` or `-` followed by one or more digits, as
/// `str::parse::<i64>` accepts it.
pub open spec fn parse_int(s: Seq<u8>) -> Option<i64> {
    let digits = literal_digits(s);
    if digits.len() == 0 || !all_digits(digits) {
        None
    } else {
        let v = if literal_negative(s) {
            -digits_value(digits)
        } else {
            digits_value(digits)
        };
        if i64::MIN <= v <= i64::MAX {
            Some(v as i64)
        } else {
            None
        }
    }
}

/// Whether a literal starts with a sign.
pub open spec fn literal_signed(s: Seq<u8>) -> bool {
    s.len() > 0 && (s[0] == 43u8 || s[0] == 45u8)
}

/// Whether a literal starts with `-`.
pub open spec fn literal_negative(s: Seq<u8>) -> bool {
    s.len() > 0 && s[0] == 45u8
}

/// The digits of a literal, after its sign if it has one.
pub open spec fn literal_digits(s: Seq<u8>) -> Seq<u8> {
    if literal_signed(s) {
        s.subrange(1, s.len() as int)
    } else {
        s
    }
}

/// The shortest decimal digits of `n` are digits whose value is `n`.
pub proof fn lemma_digits_of(n: nat)
    ensures
        digits_of(n).len() > 0,
        all_digits(digits_of(n)),
        digits_value(digits_of(n)) == n,
        digits_of(n)[0] != 45u8 && digits_of(n)[0] != 43u8,
    decreases n,
{
    if n < 10 {
        let d = digits_of(n);
        assert(d.drop_last() =~= Seq::<u8>::empty());
        assert(digits_value(d.drop_last()) == 0);
        assert(d.last() == (48 + n) as u8);
        assert(digits_value(d) == 10 * digits_value(d.drop_last()) + (d.last() - 48));
    } else {
        lemma_digits_of(n / 10);
        let d = digits_of(n);
        assert(d.drop_last() =~= digits_of(n / 10));
        assert(d.last() == (48 + n % 10) as u8);
        assert(d.last() - 48 == n % 10);
        assert(10 * (n / 10) + n % 10 == n);
        assert(digits_value(d) == 10 * digits_value(d.drop_last()) + (d.last() - 48));
        assert forall|i: int| 0 <= i < d.len() implies is_digit(#[trigger] d[i]) by {
            if i < d.len() - 1 {
                assert(d[i] == digits_of(n / 10)[i]);
            }
        }
    }
}

/// `10^k`.
pub open spec fn pow10(k: nat) -> nat
    decreases k,
{
    if k == 0 {
        1
    } else {
        10 * pow10((k - 1) as nat)
    }
}

proof fn lemma_digits_len_below(n: nat, k: nat)
    requires
        n < pow10(k),
        k >= 1,
    ensures
        digits_of(n).len() <= k,
    decreases k,
{
    if n >= 10 {
        if k == 1 {
            assert(pow10(0) == 1);
            assert(false);
        }
        let p = pow10((k - 1) as nat);
        assert(n / 10 < p) by (nonlinear_arith)
            requires
                n < 10 * p,
        ;
        lemma_digits_len_below(n / 10, (k - 1) as nat);
    }
}

/// A number below `2^64` has at most 20 decimal digits.
pub proof fn lemma_digits_len(n: nat)
    requires
        n < 18446744073709551616,
    ensures
        digits_of(n).len() <= 20,
{
    reveal_with_fuel(pow10, 21);
    assert(pow10(20) == 100000000000000000000nat);
    lemma_digits_len_below(n, 20);
}

/// Parsing the decimal form of an `i64` gives it back.
pub proof fn lemma_parse_decimal(v: i64)
    ensures
        parse_int(decimal(v as int)) == Some(v),
{
    if v < 0 {
        lemma_digits_of((-v) as nat);
        let s = decimal(v as int);
        assert(s.subrange(1, s.len() as int) =~= digits_of((-v) as nat));
    } else {
        lemma_digits_of(v as nat);
    }
}

/// The decimal digits of `n`.
pub fn u64_digits(n: u64) -> (r: Vec<u8>)
    ensures
        r@ == digits_of(n as nat),
    decreases n,
{
    if n < 10 {
        let r: Vec<u8> = vec![(48 + n) as u8];
        assert(r@ =~= digits_of(n as nat));
        r
    } else {
        let mut r = u64_digits(n / 10);
        r.push((48 + n % 10) as u8);
        r
    }
}

/// The decimal form of `v`, as `v.to_string()` writes it.
pub fn i64_to_decimal(v: i64) -> (r: Vec<u8>)
    ensures
        r@ == decimal(v as int),
{
    if v < 0 {
        let magnitude: u64 = if v == i64::MIN {
            9223372036854775808u64
        } else {
            (-v) as u64
        };
        let digits = u64_digits(magnitude);
        let mut r: Vec<u8> = vec![45u8];
        let mut i: usize = 0;
        while i < digits.len()
            invariant
                i <= digits@.len(),
                r@ == seq![45u8] + digits@.subrange(0, i as int),
            decreases digits@.len() - i,
        {
            r.push(digits[i]);
            i = i + 1;
            assert(r@ =~= seq![45u8] + digits@.subrange(0, i as int));
        }
        assert(digits@.subrange(0, digits@.len() as int) =~= digits@);
        r
    } else {
        u64_digits(v as u64)
    }
}

/// Parses a signed decimal literal, as `str::parse::<i64>` does.
pub fn parse_i64(s: &[u8]) -> (r: Option<i64>)
    ensures
        r == parse_int(s@),
{
    let len = s.len();
    let mut start: usize = 0;
    let mut neg = false;
    if len > 0 && (s[0] == 43u8 || s[0] == 45u8) {
        neg = s[0] == 45u8;
        start = 1;
    }
    let ghost digits = s@.subrange(start as int, len as int);
    assert(digits =~= literal_digits(s@));
    if start == len {
        return None;
    }
    // Accumulate the magnitude, stopping once it exceeds what an i64 holds.
    let mut acc: u128 = 0;
    let mut i: usize = start;
    let limit: u128 = 9223372036854775808u128;
    while i < len
        invariant
            start <= i <= len == s@.len(),
            start < len,
            digits == s@.subrange(start as int, len as int),
            start == (if literal_signed(s@) { 1int } else { 0int }),
            neg == literal_negative(s@),
            all_digits(s@.subrange(start as int, i as int)),
            acc == digits_value(s@.subrange(start as int, i as int)),
            acc <= limit,
            limit == 9223372036854775808u128,
        decreases len - i,
    {
        let b = s[i];
        if b < 48 || b > 57 {
            assert(digits[i - start] == b);
            return None;
        }
        let d = (b - 48) as u128;
        assert(s@.subrange(start as int, i + 1).drop_last() =~= s@.subrange(start as int, i as int));
        acc = acc * 10 + d;
        i = i + 1;
        assert(all_digits(s@.subrange(start as int, i as int)));
        if acc > limit {
            proof {
                lemma_all_digits_or_none(s@, start as int, len as int, i as int);
            }
            return None;
        }
    }
    assert(s@.subrange(start as int, len as int) =~= digits);
    if neg {
        if acc == limit {
            Some(i64::MIN)
        } else {
            Some(-(acc as i64))
        }
    } else {
        if acc > 9223372036854775807u128 {
            None
        } else {
            Some(acc as i64)
        }
    }
}

/// The value of digits is at least the value of any prefix of them.
pub proof fn lemma_digits_value_prefix_grows(s: Seq<u8>, k: int)
    requires
        0 <= k <= s.len(),
        all_digits(s),
    ensures
        digits_value(s) >= digits_value(s.subrange(0, k)),
        digits_value(s.subrange(0, k)) >= 0,
    decreases s.len(),
{
    lemma_digits_value_nonneg(s.subrange(0, k));
    if k < s.len() {
        let t = s.drop_last();
        assert(all_digits(t));
        assert(t.subrange(0, k) =~= s.subrange(0, k));
        lemma_digits_value_prefix_grows(t, k);
        lemma_digits_value_nonneg(t);
    } else {
        assert(s.subrange(0, k) =~= s);
    }
}

/// The value of digits is not negative.
pub proof fn lemma_digits_value_nonneg(s: Seq<u8>)
    requires
        all_digits(s),
    ensures
        digits_value(s) >= 0,
    decreases s.len(),
{
    if s.len() > 0 {
        assert(all_digits(s.drop_last()));
        lemma_digits_value_nonneg(s.drop_last());
    }
}

/// A literal whose digits so far already exceed the `i64` range is
/// rejected whatever follows.
proof fn lemma_all_digits_or_none(s: Seq<u8>, start: int, len: int, j: int)
    requires
        0 <= start < j <= len == s.len(),
        all_digits(s.subrange(start, j)),
        digits_value(s.subrange(start, j)) > 9223372036854775808,
        start == (if literal_signed(s) { 1int } else { 0int }),
    ensures
        parse_int(s) is None,
{
    let digits = s.subrange(start, len);
    assert(digits =~= literal_digits(s));
    if all_digits(digits) {
        lemma_digits_value_prefix_grows(digits, j - start);
        assert(digits.subrange(0, j - start) =~= s.subrange(start, j));
        assert(digits_value(digits) > 9223372036854775808);
    }
}

/// The ASCII lower-case form of a byte.
pub open spec fn lower_byte(b: u8) -> u8 {
    if 65 <= b <= 90 {
        (b + 32) as u8
    } else {
        b
    }
}

/// The ASCII lower-case form of a string.
pub open spec fn lower(s: Seq<u8>) -> Seq<u8> {
    s.map_values(|b: u8| lower_byte(b))
}

/// `s.to_ascii_lowercase()`.
pub fn to_ascii_lowercase(s: &[u8]) -> (r: Vec<u8>)
    ensures
        r@ == lower(s@),
{
    let mut r: Vec<u8> = Vec::new();
    let mut i: usize = 0;
    while i < s.len()
        invariant
            i <= s@.len(),
            r@ == lower(s@.subrange(0, i as int)),
        decreases s@.len() - i,
    {
        let b = s[i];
        let l = if b >= 65 && b <= 90 {
            b + 32
        } else {
            b
        };
        r.push(l);
        i = i + 1;
        assert(r@ =~= lower(s@.subrange(0, i as int)));
    }
    assert(s@.subrange(0, s@.len() as int) =~= s@);
    r
}

/// Whether two strings are equal ignoring ASCII case.
pub fn eq_ignore_ascii_case(a: &[u8], b: &[u8]) -> (r: bool)
    ensures
        r == (lower(a@) == lower(b@)),
{
    if a.len() != b.len() {
        assert(lower(a@).len() != lower(b@).len());
        return false;
    }
    let mut i: usize = 0;
    while i < a.len()
        invariant
            a@.len() == b@.len(),
            i <= a@.len(),
            forall|k: int| 0 <= k < i ==> lower_byte(a@[k]) == lower_byte(b@[k]),
        decreases a@.len() - i,
    {
        let x = a[i];
        let y = b[i];
        let lx = if x >= 65 && x <= 90 {
            x + 32
        } else {
            x
        };
        let ly = if y >= 65 && y <= 90 {
            y + 32
        } else {
            y
        };
        if lx != ly {
            assert(lower(a@)[i as int] != lower(b@)[i as int]);
            return false;
        }
        i = i + 1;
    }
    assert(lower(a@) =~= lower(b@));
    true
}

/// Whether two byte strings are equal.
pub fn bytes_eq(a: &[u8], b: &[u8]) -> (r: bool)
    ensures
        r == (a@ == b@),
{
    if a.len() != b.len() {
        return false;
    }
    let mut i: usize = 0;
    while i < a.len()
        invariant
            a@.len() == b@.len(),
            i <= a@.len(),
            forall|k: int| 0 <= k < i ==> a@[k] == b@[k],
        decreases a@.len() - i,
    {
        if a[i] != b[i] {
            return false;
        }
        i = i + 1;
    }
    assert(a@ =~= b@);
    true
}

/// ASCII white space: space, tab, line feed, form feed, carriage return.
pub open spec fn is_space(b: u8) -> bool {
    b == 32 || b == 9 || b == 10 || b == 12 || b == 13
}

pub fn is_space_byte(b: u8) -> (r: bool)
    ensures
        r == is_space(b),
{
    b == 32 || b == 9 || b == 10 || b == 12 || b == 13
}

/// A letter, or `_`.
pub open spec fn is_ident_start(b: u8) -> bool {
    b == 95 || (65 <= b <= 90) || (97 <= b <= 122)
}

/// A letter, a digit, or `_`.
pub open spec fn is_ident_continue(b: u8) -> bool {
    is_ident_start(b) || is_digit(b)
}

pub fn is_identifier_start(b: u8) -> (r: bool)
    ensures
        r == is_ident_start(b),
{
    b == 95 || (b >= 65 && b <= 90) || (b >= 97 && b <= 122)
}

pub fn is_identifier_continue(b: u8) -> (r: bool)
    ensures
        r == is_ident_continue(b),
{
    is_identifier_start(b) || (b >= 48 && b <= 57)
}

/// A non-empty identifier: a letter or `_`, then letters, digits or `_`.
pub open spec fn valid_identifier(s: Seq<u8>) -> bool {
    &&& s.len() > 0
    &&& is_ident_start(s[0])
    &&& forall|i: int| 1 <= i < s.len() ==> is_ident_continue(#[trigger] s[i])
}

pub fn is_valid_identifier(s: &[u8]) -> (r: bool)
    ensures
        r == valid_identifier(s@),
{
    if s.len() == 0 || !is_identifier_start(s[0]) {
        return false;
    }
    let mut i: usize = 1;
    while i < s.len()
        invariant
            1 <= i <= s@.len(),
            forall|k: int| 1 <= k < i ==> is_ident_continue(#[trigger] s@[k]),
        decreases s@.len() - i,
    {
        if !is_identifier_continue(s[i]) {
            return false;
        }
        i = i + 1;
    }
    true
}

/// Text that cannot break the `|`-separated output: no `|`, line feed,
/// carriage return or quote.
pub open spec fn output_safe(s: Seq<u8>) -> bool {
    forall|i: int| 0 <= i < s.len() ==> (#[trigger] s[i] != 124u8 && s[i] != 10u8 && s[i] != 13u8
        && s[i] != 39u8)
}

pub fn is_output_safe_text(s: &[u8]) -> (r: bool)
    ensures
        r == output_safe(s@),
{
    let mut i: usize = 0;
    while i < s.len()
        invariant
            i <= s@.len(),
            forall|k: int| 0 <= k < i ==> (#[trigger] s@[k] != 124u8 && s@[k] != 10u8 && s@[k] != 13u8
                && s@[k] != 39u8),
        decreases s@.len() - i,
    {
        let b = s[i];
        if b == 124 || b == 10 || b == 13 || b == 39 {
            return false;
        }
        i = i + 1;
    }
    true
}

} // verus!
