//! Little-endian integer fields inside byte sequences.
use vstd::prelude::*;

verus! {

/// The unsigned 16-bit little-endian value stored at `off`.
pub open spec fn le16(s: Seq<u8>, off: int) -> int {
    s[off] + 256 * s[off + 1]
}

/// The unsigned 32-bit little-endian value stored at `off`.
pub open spec fn le32(s: Seq<u8>, off: int) -> int {
    le16(s, off) + 65536 * le16(s, off + 2)
}

/// The unsigned 64-bit little-endian value stored at `off`.
pub open spec fn le64(s: Seq<u8>, off: int) -> int {
    le32(s, off) + 4294967296 * le32(s, off + 4)
}

/// The two little-endian bytes of `v`.
pub open spec fn bytes16(v: int) -> Seq<u8> {
    seq![(v % 256) as u8, ((v / 256) % 256) as u8]
}

/// The four little-endian bytes of `v`.
pub open spec fn bytes32(v: int) -> Seq<u8> {
    bytes16(v % 65536) + bytes16(v / 65536)
}

/// The eight little-endian bytes of `v`.
pub open spec fn bytes64(v: int) -> Seq<u8> {
    bytes32(v % 4294967296) + bytes32(v / 4294967296)
}

/// Reading back the bytes of a 16-bit value gives the value.
pub proof fn lemma_bytes16(v: int)
    requires
        0 <= v < 65536,
    ensures
        bytes16(v).len() == 2,
        le16(bytes16(v), 0) == v,
{
}

/// Reading back the bytes of a 32-bit value gives the value.
pub proof fn lemma_bytes32(v: int)
    requires
        0 <= v < 4294967296,
    ensures
        bytes32(v).len() == 4,
        le32(bytes32(v), 0) == v,
{
    lemma_bytes16(v % 65536);
    lemma_bytes16(v / 65536);
    let b = bytes32(v);
    assert(le16(b, 0) == le16(bytes16(v % 65536), 0));
    assert(le16(b, 2) == le16(bytes16(v / 65536), 0));
}

/// Reading back the bytes of a 64-bit value gives the value.
pub proof fn lemma_bytes64(v: int)
    requires
        0 <= v < 18446744073709551616,
    ensures
        bytes64(v).len() == 8,
        le64(bytes64(v), 0) == v,
{
    lemma_bytes32(v % 4294967296);
    lemma_bytes32(v / 4294967296);
    let b = bytes64(v);
    assert(le32(b, 0) == le32(bytes32(v % 4294967296), 0));
    assert(le32(b, 4) == le32(bytes32(v / 4294967296), 0));
}

/// The bytes of `b` from `pos` on are `w`: any part of `w` is the matching
/// part of `b`.
pub proof fn lemma_window(b: Seq<u8>, pos: int, w: Seq<u8>, a: int, c: int)
    requires
        0 <= pos,
        pos + w.len() <= b.len(),
        b.subrange(pos, pos + w.len()) == w,
        0 <= a <= c <= w.len(),
    ensures
        b.subrange(pos + a, pos + c) == w.subrange(a, c),
{
    assert forall|k: int| 0 <= k < c - a implies #[trigger] b.subrange(pos + a, pos + c)[k] == w.subrange(
        a,
        c,
    )[k] by {
        assert(b.subrange(pos, pos + w.len())[a + k] == w[a + k]);
    }
    assert(b.subrange(pos + a, pos + c) =~= w.subrange(a, c));
}

/// The integers read inside a window of `b` are those read in the window.
pub proof fn lemma_read_window(b: Seq<u8>, pos: int, w: Seq<u8>, a: int)
    requires
        0 <= pos,
        pos + w.len() <= b.len(),
        b.subrange(pos, pos + w.len()) == w,
        0 <= a,
    ensures
        a + 2 <= w.len() ==> le16(b, pos + a) == le16(w, a),
        a + 4 <= w.len() ==> le32(b, pos + a) == le32(w, a),
        a + 8 <= w.len() ==> le64(b, pos + a) == le64(w, a),
{
    assert forall|k: int| 0 <= k < w.len() implies b[pos + k] == #[trigger] w[k] by {
        assert(b.subrange(pos, pos + w.len())[k] == b[pos + k]);
    }
}

/// A window that holds `x + y` holds `x` and then `y`.
pub proof fn lemma_split(b: Seq<u8>, pos: int, x: Seq<u8>, y: Seq<u8>)
    requires
        0 <= pos,
        pos + x.len() + y.len() <= b.len(),
        b.subrange(pos, pos + x.len() + y.len()) == x + y,
    ensures
        b.subrange(pos, pos + x.len()) == x,
        b.subrange(pos + x.len(), pos + x.len() + y.len()) == y,
{
    lemma_window(b, pos, x + y, 0, x.len() as int);
    lemma_window(b, pos, x + y, x.len() as int, (x.len() + y.len()) as int);
    assert((x + y).subrange(0, x.len() as int) =~= x);
    assert((x + y).subrange(x.len() as int, (x.len() + y.len()) as int) =~= y);
}

/// Reading the integer whose bytes a window holds gives the integer.
pub proof fn lemma_read_bytes(b: Seq<u8>, pos: int, v: int)
    requires
        0 <= pos,
        0 <= v,
    ensures
        v < 65536 && pos + 2 <= b.len() && b.subrange(pos, pos + 2) == bytes16(v) ==> le16(b, pos) == v,
        v < 4294967296 && pos + 4 <= b.len() && b.subrange(pos, pos + 4) == bytes32(v) ==> le32(b, pos)
            == v,
        v < 18446744073709551616 && pos + 8 <= b.len() && b.subrange(pos, pos + 8) == bytes64(v) ==> le64(
            b,
            pos,
        ) == v,
{
    if v < 65536 && pos + 2 <= b.len() && b.subrange(pos, pos + 2) == bytes16(v) {
        lemma_bytes16(v);
        lemma_read_window(b, pos, bytes16(v), 0);
    }
    if v < 4294967296 && pos + 4 <= b.len() && b.subrange(pos, pos + 4) == bytes32(v) {
        lemma_bytes32(v);
        lemma_read_window(b, pos, bytes32(v), 0);
    }
    if v < 18446744073709551616 && pos + 8 <= b.len() && b.subrange(pos, pos + 8) == bytes64(v) {
        lemma_bytes64(v);
        lemma_read_window(b, pos, bytes64(v), 0);
    }
}

/// Reads the 16-bit little-endian value at `off`.
pub fn read_le16(s: &[u8], off: usize) -> (v: u16)
    requires
        off + 2 <= s@.len(),
    ensures
        v == le16(s@, off as int),
{
    s[off] as u16 + 256 * (s[off + 1] as u16)
}

/// Reads the 32-bit little-endian value at `off`.
pub fn read_le32(s: &[u8], off: usize) -> (v: u32)
    requires
        off + 4 <= s@.len(),
    ensures
        v == le32(s@, off as int),
{
    let n = s.len();
    assert(off + 4 <= n);
    let lo = read_le16(s, off) as u32;
    let hi = read_le16(s, off + 2) as u32;
    lo + 65536 * hi
}

/// Reads the 64-bit little-endian value at `off`.
pub fn read_le64(s: &[u8], off: usize) -> (v: u64)
    requires
        off + 8 <= s@.len(),
    ensures
        v == le64(s@, off as int),
{
    let n = s.len();
    assert(off + 8 <= n);
    let lo = read_le32(s, off) as u64;
    let hi = read_le32(s, off + 4) as u64;
    lo + 4294967296 * hi
}

/// Appends the two little-endian bytes of `v`.
pub fn push_le16(out: &mut Vec<u8>, v: u16)
    ensures
        final(out)@ == old(out)@ + bytes16(v as int),
{
    out.push((v % 256) as u8);
    out.push((v / 256) as u8);
    assert(final(out)@ =~= old(out)@ + bytes16(v as int));
}

/// Appends the four little-endian bytes of `v`.
pub fn push_le32(out: &mut Vec<u8>, v: u32)
    ensures
        final(out)@ == old(out)@ + bytes32(v as int),
{
    push_le16(out, (v % 65536) as u16);
    push_le16(out, (v / 65536) as u16);
    assert(final(out)@ =~= old(out)@ + bytes32(v as int));
}

/// Appends the eight little-endian bytes of `v`.
pub fn push_le64(out: &mut Vec<u8>, v: u64)
    ensures
        final(out)@ == old(out)@ + bytes64(v as int),
{
    push_le32(out, (v % 4294967296) as u32);
    push_le32(out, (v / 4294967296) as u32);
    assert(final(out)@ =~= old(out)@ + bytes64(v as int));
}

/// Appends all of `src`.
pub fn push_all(out: &mut Vec<u8>, src: &[u8])
    ensures
        final(out)@ == old(out)@ + src@,
{
    let mut i: usize = 0;
    while i < src.len()
        invariant
            i <= src@.len(),
            out@ == old(out)@ + src@.subrange(0, i as int),
        decreases src@.len() - i,
    {
        out.push(src[i]);
        i = i + 1;
        assert(out@ =~= old(out)@ + src@.subrange(0, i as int));
    }
    assert(src@.subrange(0, src@.len() as int) =~= src@);
}

/// A copy of `src[start..end]`.
pub fn copy_range(src: &[u8], start: usize, end: usize) -> (r: Vec<u8>)
    requires
        start <= end <= src@.len(),
    ensures
        r@ == src@.subrange(start as int, end as int),
{
    let mut r: Vec<u8> = Vec::new();
    let mut i: usize = start;
    while i < end
        invariant
            start <= i <= end <= src@.len(),
            r@ == src@.subrange(start as int, i as int),
        decreases end - i,
    {
        r.push(src[i]);
        i = i + 1;
        assert(r@ =~= src@.subrange(start as int, i as int));
    }
    r
}

/// Whether `s[off..off + lit.len()]` equals `lit`.
pub fn bytes_match_at(s: &[u8], off: usize, lit: &[u8]) -> (b: bool)
    ensures
        b == (off + lit@.len() <= s@.len() && s@.subrange(off as int, off + lit@.len()) == lit@),
{
    if off > s.len() || lit.len() > s.len() - off {
        return false;
    }
    let mut i: usize = 0;
    while i < lit.len()
        invariant
            off + lit@.len() <= s@.len(),
            s@.len() <= usize::MAX,
            i <= lit@.len(),
            forall|j: int| 0 <= j < i ==> s@[off + j] == lit@[j],
        decreases lit@.len() - i,
    {
        if s[off + i] != lit[i] {
            assert(s@.subrange(off as int, off + lit@.len())[i as int] != lit@[i as int]);
            return false;
        }
        i = i + 1;
    }
    assert(s@.subrange(off as int, off + lit@.len()) =~= lit@);
    true
}

} // verus!
