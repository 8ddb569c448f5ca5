//! Fixed-point decimals: non-negative values counted in units of 10^-9,
//! printed with a fixed number of decimals and read back from text.
use crate::bytes::push_all;
use crate::text::{all_digits, digits_of, digits_value, is_digit, lemma_digits_of, pow10, u64_digits};
use vstd::prelude::*;

verus! {

/// Units in one whole: values are counted in billionths.
pub const UNITS: u64 = 1000000000;

/// The last `w` decimal digits of `v`, zeros in front.
pub open spec fn pad_digits(v: nat, w: nat) -> Seq<u8>
    decreases w,
{
    if w == 0 {
        Seq::empty()
    } else {
        pad_digits(v / 10, (w - 1) as nat).push((48 + v % 10) as u8)
    }
}

/// `{:.9}` of a value of `u` units: exact.
pub open spec fn fixed9(u: nat) -> Seq<u8> {
    digits_of(u / 1000000000) + seq![46u8] + pad_digits(u % 1000000000, 9)
}

/// `{:.3}` of a value of `u` units, rounded half up.
pub open spec fn fixed3(u: nat) -> Seq<u8> {
    let r = (u + 500000) / 1000000;
    digits_of(r / 1000) + seq![46u8] + pad_digits(r % 1000, 3)
}

/// `{:.6}` of a value of `u` units, rounded half up.
pub open spec fn fixed6(u: nat) -> Seq<u8> {
    let r = (u + 500) / 1000;
    digits_of(r / 1000000) + seq![46u8] + pad_digits(r % 1000000, 6)
}

fn push_padded(out: &mut Vec<u8>, v: u64, w: u32)
    ensures
        final(out)@ == old(out)@ + pad_digits(v as nat, w as nat),
    decreases w,
{
    if w > 0 {
        push_padded(out, v / 10, w - 1);
        out.push((48 + v % 10) as u8);
        assert(final(out)@ =~= old(out)@ + pad_digits(v as nat, w as nat));
    } else {
        assert(final(out)@ =~= old(out)@ + pad_digits(v as nat, w as nat));
    }
}

/// Appends `{:.9}` of `u` units.
pub fn push_fixed9(out: &mut Vec<u8>, u: u64)
    ensures
        final(out)@ == old(out)@ + fixed9(u as nat),
{
    let whole = u64_digits(u / UNITS);
    push_all(out, whole.as_slice());
    out.push(46u8);
    push_padded(out, u % UNITS, 9);
    assert(final(out)@ =~= old(out)@ + fixed9(u as nat));
}

/// Appends `{:.3}` of `u` units.
pub fn push_fixed3(out: &mut Vec<u8>, u: u64)
    ensures
        final(out)@ == old(out)@ + fixed3(u as nat),
{
    let r = ((u as u128 + 500000) / 1000000) as u64;
    let whole = u64_digits(r / 1000);
    push_all(out, whole.as_slice());
    out.push(46u8);
    push_padded(out, r % 1000, 3);
    assert(final(out)@ =~= old(out)@ + fixed3(u as nat));
}

/// Appends `{:.6}` of `u` units.
pub fn push_fixed6(out: &mut Vec<u8>, u: u64)
    ensures
        final(out)@ == old(out)@ + fixed6(u as nat),
{
    let r = ((u as u128 + 500) / 1000) as u64;
    let whole = u64_digits(r / 1000000);
    push_all(out, whole.as_slice());
    out.push(46u8);
    push_padded(out, r % 1000000, 6);
    assert(final(out)@ =~= old(out)@ + fixed6(u as nat));
}

/// Appends the decimal digits of `v`.
pub fn push_count(out: &mut Vec<u8>, v: u64)
    ensures
        final(out)@ == old(out)@ + digits_of(v as nat),
{
    let d = u64_digits(v);
    push_all(out, d.as_slice());
}

/// Padded digits are digits.
pub proof fn lemma_pad_digits(v: nat, w: nat)
    ensures
        pad_digits(v, w).len() == w,
        all_digits(pad_digits(v, w)),
    decreases w,
{
    if w > 0 {
        lemma_pad_digits(v / 10, (w - 1) as nat);
        let p = pad_digits(v / 10, (w - 1) as nat);
        assert forall|i: int| 0 <= i < w implies is_digit(#[trigger] pad_digits(v, w)[i]) by {
            if i < w - 1 {
                assert(pad_digits(v, w)[i] == p[i]);
            }
        }
    }
}

/// The bytes of a printed decimal are digits and one point: ASCII.
pub proof fn lemma_fixed_ascii(whole: nat, frac: nat, w: nat)
    ensures
        forall|i: int|
            0 <= i < (digits_of(whole) + seq![46u8] + pad_digits(frac, w)).len() ==> #[trigger] (digits_of(whole)
                + seq![46u8] + pad_digits(frac, w))[i] < 128,
{
    lemma_digits_of(whole);
    lemma_pad_digits(frac, w);
    let d = digits_of(whole);
    let s = d + seq![46u8] + pad_digits(frac, w);
    assert forall|i: int| 0 <= i < s.len() implies #[trigger] s[i] < 128 by {
        if i < d.len() {
            assert(is_digit(d[i]));
        } else if i > d.len() {
            assert(s[i] == pad_digits(frac, w)[i - d.len() - 1]);
            assert(is_digit(pad_digits(frac, w)[i - d.len() - 1]));
        }
    }
}

/// Whether a byte may belong to a number: a digit or a point.
pub open spec fn is_number_byte(b: u8) -> bool {
    is_digit(b) || b == 46u8
}

/// The number of digits and points from `i` on.
pub open spec fn number_run(s: Seq<u8>, i: int) -> int
    decreases s.len() - i,
{
    if i < 0 || i >= s.len() || !is_number_byte(s[i]) {
        0
    } else {
        1 + number_run(s, i + 1)
    }
}

/// The number of points.
pub open spec fn points(t: Seq<u8>) -> int
    decreases t.len(),
{
    if t.len() == 0 {
        0
    } else {
        points(t.drop_last()) + if t.last() == 46u8 {
            1int
        } else {
            0int
        }
    }
}

/// The position of the first point, or the length.
pub open spec fn point_at(t: Seq<u8>) -> int
    decreases t.len(),
{
    if t.len() == 0 {
        0
    } else if t[0] == 46u8 {
        0
    } else {
        1 + point_at(t.subrange(1, t.len() as int))
    }
}

/// The value in units of a text of digits with at most one point and at
/// least one digit, as `str::parse::<f64>` reads such a text; decimals after
/// the ninth are dropped.
pub open spec fn fixed_value(t: Seq<u8>) -> Option<nat> {
    let p = point_at(t);
    let whole = t.subrange(0, p);
    let frac = if p < t.len() {
        t.subrange(p + 1, t.len() as int)
    } else {
        Seq::empty()
    };
    let kept = if frac.len() > 9 {
        frac.subrange(0, 9)
    } else {
        frac
    };
    if points(t) > 1 || whole.len() + frac.len() == 0 {
        None
    } else {
        Some((digits_value(whole) * 1000000000 + digits_value(kept) * pow10((9 - kept.len()) as nat)) as nat)
    }
}

/// The number that starts at `i`, in units, if there is one there and it
/// fits a `u64`.
pub open spec fn number_at(s: Seq<u8>, i: int) -> Option<u64> {
    match fixed_value(s.subrange(i, i + number_run(s, i))) {
        Some(v) => if v <= u64::MAX {
            Some(v as u64)
        } else {
            None
        },
        None => None,
    }
}

proof fn lemma_number_run(s: Seq<u8>, i: int)
    requires
        0 <= i <= s.len(),
    ensures
        0 <= number_run(s, i) <= s.len() - i,
        forall|k: int| i <= k < i + number_run(s, i) ==> is_number_byte(#[trigger] s[k]),
    decreases s.len() - i,
{
    if i < s.len() && is_number_byte(s[i]) {
        lemma_number_run(s, i + 1);
    }
}

proof fn lemma_point_at(t: Seq<u8>)
    ensures
        0 <= point_at(t) <= t.len(),
        point_at(t) < t.len() ==> t[point_at(t)] == 46u8,
        forall|k: int| 0 <= k < point_at(t) ==> t[k] != 46u8,
    decreases t.len(),
{
    if t.len() > 0 && t[0] != 46u8 {
        let r = t.subrange(1, t.len() as int);
        lemma_point_at(r);
        assert forall|k: int| 0 <= k < point_at(t) implies t[k] != 46u8 by {
            if k > 0 {
                assert(t[k] == r[k - 1]);
            }
        }
    }
}

proof fn lemma_points_split(t: Seq<u8>, k: int)
    requires
        0 <= k <= t.len(),
    ensures
        points(t) == points(t.subrange(0, k)) + points(t.subrange(k, t.len() as int)),
    decreases t.len() - k,
{
    if k < t.len() {
        lemma_points_split(t, k + 1);
        assert(t.subrange(0, k + 1).drop_last() =~= t.subrange(0, k));
        lemma_points_front(t.subrange(k, t.len() as int));
        assert(t.subrange(k, t.len() as int).subrange(1, t.len() - k) =~= t.subrange(k + 1, t.len() as int));
    } else {
        assert(t.subrange(0, k) =~= t);
        assert(t.subrange(k, t.len() as int) =~= Seq::<u8>::empty());
    }
}

proof fn lemma_points_front(t: Seq<u8>)
    requires
        t.len() > 0,
    ensures
        points(t) == points(t.subrange(1, t.len() as int)) + if t[0] == 46u8 {
            1int
        } else {
            0int
        },
    decreases t.len(),
{
    if t.len() > 1 {
        lemma_points_front(t.drop_last());
        assert(t.drop_last().subrange(1, t.len() - 1) =~= t.subrange(1, t.len() as int).drop_last());
    } else {
        assert(t.subrange(1, t.len() as int) =~= Seq::<u8>::empty());
        assert(t.drop_last() =~= Seq::<u8>::empty());
    }
}

proof fn lemma_digits_prefix(d: Seq<u8>, k: int)
    requires
        0 <= k <= d.len(),
        all_digits(d),
    ensures
        0 <= digits_value(d.subrange(0, k)) <= digits_value(d),
    decreases d.len(),
{
    if k < d.len() {
        lemma_digits_prefix(d.drop_last(), k);
        assert(d.drop_last().subrange(0, k) =~= d.subrange(0, k));
        assert(digits_value(d) == 10 * digits_value(d.drop_last()) + (d.last() - 48));
    } else {
        assert(d.subrange(0, k) =~= d);
        if d.len() > 0 {
            lemma_digits_prefix(d.drop_last(), d.len() - 1);
            assert(d.drop_last().subrange(0, d.len() - 1) =~= d.drop_last());
        }
    }
}

fn digits_u64(t: &[u8], start: usize, end: usize, limit: u64) -> (r: Option<u64>)
    requires
        start <= end <= t@.len(),
        all_digits(t@.subrange(start as int, end as int)),
    ensures
        match r {
            Some(v) => v == digits_value(t@.subrange(start as int, end as int)) && v <= limit,
            None => digits_value(t@.subrange(start as int, end as int)) > limit,
        },
{
    let ghost d = t@.subrange(start as int, end as int);
    let mut v: u64 = 0;
    let mut i = start;
    assert(d.subrange(0, 0) =~= Seq::<u8>::empty());
    while i < end
        invariant
            start <= i <= end <= t@.len(),
            d == t@.subrange(start as int, end as int),
            all_digits(d),
            v == digits_value(d.subrange(0, i - start)),
            v <= limit,
        decreases end - i,
    {
        assert(d.subrange(0, i - start + 1).drop_last() =~= d.subrange(0, i - start));
        assert(d.subrange(0, i - start + 1).last() == t@[i as int]);
        assert(is_digit(d[i - start]));
        let digit = (t[i] - 48u8) as u64;
        if digit > limit {
            proof {
                lemma_digits_prefix(d, i - start + 1);
            }
            return None;
        }
        if v > (limit - digit) / 10 {
            proof {
                assert(10 * v + digit > limit) by (nonlinear_arith)
                    requires
                        v > (limit - digit) / 10,
                        digit <= 9,
                        digit <= limit,
                ;
                lemma_digits_prefix(d, i - start + 1);
            }
            return None;
        }
        assert(10 * v + digit <= limit) by (nonlinear_arith)
            requires
                v <= (limit - digit) / 10,
                digit <= limit,
        ;
        v = v * 10 + digit;
        i = i + 1;
    }
    assert(d.subrange(0, end - start) =~= d);
    Some(v)
}

fn pow10_u64(k: u32) -> (p: u64)
    requires
        k <= 9,
    ensures
        p == pow10(k as nat),
        p <= 1000000000,
{
    let mut p: u64 = 1;
    let mut i: u32 = 0;
    proof {
        reveal_with_fuel(pow10, 10);
    }
    while i < k
        invariant
            i <= k <= 9,
            p == pow10(i as nat),
            pow10(9) == 1000000000,
        decreases k - i,
    {
        proof {
            lemma_pow10_mono((i + 1) as nat, 9);
        }
        p = p * 10;
        i = i + 1;
    }
    proof {
        lemma_pow10_mono(k as nat, 9);
    }
    p
}

/// The number that starts at `i` of `s`, in units.
#[verifier::rlimit(40)]
pub fn number_at_exec(s: &[u8], i: usize) -> (r: Option<u64>)
    requires
        i <= s@.len(),
    ensures
        r == number_at(s@, i as int),
{
    proof {
        lemma_number_run(s@, i as int);
    }
    let ghost run = number_run(s@, i as int);
    let ghost t = s@.subrange(i as int, i + run);
    let n = s.len();
    let mut end = i;
    let mut point: Option<usize> = None;
    let mut count: usize = 0;
    assert(t.subrange(0, 0) =~= Seq::<u8>::empty());
    while end < n && (s[end] == 46u8 || (48u8 <= s[end] && s[end] <= 57u8))
        invariant
            n == s@.len(),
            i <= end <= i + run,
            i + run <= n,
            run == number_run(s@, i as int),
            t == s@.subrange(i as int, i + run),
            forall|k: int| i <= k < i + run ==> is_number_byte(#[trigger] s@[k]),
            count == points(t.subrange(0, end - i)),
            count <= end - i,
            match point {
                None => count == 0 && forall|k: int| i <= k < end ==> s@[k] != 46u8,
                Some(q) => i <= q < end && s@[q as int] == 46u8 && count >= 1 && forall|k: int|
                    i <= k < q ==> s@[k] != 46u8,
            },
        decreases n - end,
    {
        proof {
            if end == i + run {
                assert(number_run(s@, end as int) == 0) by {
                    lemma_run_end(s@, i as int);
                }
            }
        }
        assert(end < i + run) by {
            if end >= i + run {
                lemma_run_end(s@, i as int);
            }
        }
        assert(t.subrange(0, end - i + 1).drop_last() =~= t.subrange(0, end - i));
        assert(t.subrange(0, end - i + 1).last() == s@[end as int]);
        if s[end] == 46u8 {
            if point.is_none() {
                point = Some(end);
            }
            count = count + 1;
        }
        end = end + 1;
    }
    proof {
        if end < i + run {
            assert(is_number_byte(s@[end as int]));
        }
    }
    assert(end == i + run);
    assert(t.subrange(0, end - i) =~= t);
    let p = match point {
        Some(q) => q,
        None => end,
    };
    proof {
        lemma_point_at(t);
        assert forall|k: int| 0 <= k < p - i implies t[k] != 46u8 by {
            assert(t[k] == s@[i + k]);
        }
        if p < end {
            assert(t[p - i] == 46u8);
        }
        lemma_point_eq(t, p - i);
    }
    assert(point_at(t) == p - i);
    let ghost whole = t.subrange(0, p - i);
    let ghost frac = if p < end {
        t.subrange(p - i + 1, t.len() as int)
    } else {
        Seq::<u8>::empty()
    };
    if count > 1 {
        return None;
    }
    let frac_start = if p < end {
        p + 1
    } else {
        end
    };
    if p == i && frac_start == end {
        return None;
    }
    assert(whole =~= s@.subrange(i as int, p as int));
    proof {
        assert forall|k: int| 0 <= k < whole.len() implies is_digit(#[trigger] whole[k]) by {
            assert(whole[k] == s@[i + k]);
            assert(is_number_byte(s@[i + k]));
            assert(s@[i + k] != 46u8);
        }
        if p < end {
            lemma_points_split(t, p - i + 1);
            assert(t.subrange(0, p - i + 1).drop_last() =~= t.subrange(0, p - i));
            lemma_no_points(t.subrange(0, p - i));
            assert(points(t.subrange(0, p - i + 1)) == 1);
        }
    }
    let kept_end = if end - frac_start > 9 {
        frac_start + 9
    } else {
        end
    };
    let ghost kept = s@.subrange(frac_start as int, kept_end as int);
    proof {
        assert forall|k: int| 0 <= k < kept.len() implies is_digit(#[trigger] kept[k]) by {
            assert(kept[k] == s@[frac_start + k]);
            assert(is_number_byte(s@[frac_start + k]));
            if s@[frac_start + k] == 46u8 {
                lemma_point_after(t, p - i, frac_start + k - i);
            }
        }
        if p < end {
            assert(frac =~= s@.subrange(frac_start as int, end as int));
            if frac.len() > 9 {
                assert(frac.subrange(0, 9) =~= kept);
            } else {
                assert(frac =~= kept);
            }
        } else {
            assert(kept =~= Seq::<u8>::empty());
        }
    }
    let whole_units = match digits_u64(s, i, p, 18446744073) {
        Some(v) => v,
        None => {
            proof {
                lemma_digits_below(kept);
            }
            return None;
        },
    };
    let kept_value = match digits_u64(s, frac_start, kept_end, 999999999) {
        Some(v) => v,
        None => {
            proof {
                reveal_with_fuel(pow10, 10);
                lemma_kept_below(kept);
            }
            return None;
        },
    };
    let scale = pow10_u64((9 - (kept_end - frac_start)) as u32);
    assert(whole_units as u128 * 1000000000 <= 18446744073000000000) by (nonlinear_arith)
        requires
            whole_units <= 18446744073,
    ;
    assert(kept_value as u128 * scale as u128 <= 999999999000000000) by (nonlinear_arith)
        requires
            kept_value <= 999999999,
            scale <= 1000000000,
    ;
    let total = whole_units as u128 * 1000000000 + kept_value as u128 * scale as u128;
    if total > u64::MAX as u128 {
        return None;
    }
    Some(total as u64)
}

proof fn lemma_run_end(s: Seq<u8>, i: int)
    requires
        0 <= i <= s.len(),
    ensures
        i + number_run(s, i) >= s.len() || !is_number_byte(s[i + number_run(s, i)]),
    decreases s.len() - i,
{
    if i < s.len() && is_number_byte(s[i]) {
        lemma_run_end(s, i + 1);
    }
}

proof fn lemma_point_eq(t: Seq<u8>, q: int)
    requires
        0 <= q <= t.len(),
        forall|k: int| 0 <= k < q ==> t[k] != 46u8,
        q < t.len() ==> t[q] == 46u8,
    ensures
        point_at(t) == q,
    decreases t.len(),
{
    if t.len() > 0 && t[0] != 46u8 {
        let r = t.subrange(1, t.len() as int);
        assert forall|k: int| 0 <= k < q - 1 implies r[k] != 46u8 by {
            assert(r[k] == t[k + 1]);
        }
        if q - 1 < r.len() {
            assert(r[q - 1] == t[q]);
        }
        lemma_point_eq(r, q - 1);
    }
}

proof fn lemma_no_points(t: Seq<u8>)
    requires
        forall|k: int| 0 <= k < t.len() ==> t[k] != 46u8,
    ensures
        points(t) == 0,
    decreases t.len(),
{
    if t.len() > 0 {
        lemma_no_points(t.drop_last());
    }
}

proof fn lemma_point_after(t: Seq<u8>, p: int, k: int)
    requires
        0 <= p < k < t.len(),
        t[p] == 46u8,
        t[k] == 46u8,
    ensures
        points(t) > 1,
{
    lemma_points_split(t, k);
    lemma_points_split(t.subrange(0, k), p);
    lemma_points_front(t.subrange(0, k).subrange(p, k));
    lemma_points_front(t.subrange(k, t.len() as int));
    lemma_points_nonneg(t.subrange(0, k).subrange(0, p));
    lemma_points_nonneg(t.subrange(0, k).subrange(p, k).subrange(1, k - p));
    lemma_points_nonneg(t.subrange(k, t.len() as int).subrange(1, t.len() - k));
}

proof fn lemma_points_nonneg(t: Seq<u8>)
    ensures
        points(t) >= 0,
    decreases t.len(),
{
    if t.len() > 0 {
        lemma_points_nonneg(t.drop_last());
    }
}

proof fn lemma_kept_below(kept: Seq<u8>)
    requires
        kept.len() <= 9,
        all_digits(kept),
    ensures
        digits_value(kept) <= 999999999,
{
    lemma_digits_below(kept);
    reveal_with_fuel(pow10, 10);
    lemma_pow10_mono(kept.len(), 9);
}

proof fn lemma_digits_below(d: Seq<u8>)
    requires
        all_digits(d),
    ensures
        0 <= digits_value(d) < pow10(d.len()),
    decreases d.len(),
{
    if d.len() > 0 {
        lemma_digits_below(d.drop_last());
        let v = digits_value(d.drop_last());
        let p = pow10((d.len() - 1) as nat);
        assert(is_digit(d.last()));
        assert(10 * v + (d.last() - 48) < 10 * p) by (nonlinear_arith)
            requires
                0 <= v < p,
                0 <= d.last() - 48 <= 9,
        ;
    }
}

proof fn lemma_pow10_mono(a: nat, b: nat)
    requires
        a <= b,
    ensures
        pow10(a) <= pow10(b),
    decreases b,
{
    if a < b {
        lemma_pow10_mono(a, (b - 1) as nat);
    }
}

} // verus!
