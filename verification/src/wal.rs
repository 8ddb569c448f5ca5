//! The write-ahead log that sits beside a store file.
//!
//! Each frame: bytes 0..8 magic `PDBWAL1\0`, 8..10 version (1), 10..18 frame
//! id, 18..26 the store's record count before the frame, 26 state
//! (1 committed, 2 rolled back), 27 payload kind (1 page append), 28..32
//! payload length, 32..36 checksum (the wrapping sum of every other byte of
//! the frame), then the payload.
use crate::bytes::{
    bytes16, bytes32, bytes64, bytes_match_at, copy_range, le16, le32, le64, lemma_bytes16,
    lemma_bytes32, lemma_bytes64, push_all, push_le16, push_le32, push_le64, read_le16, read_le32,
    read_le64,
};
use crate::page::{rec_view, seq_write, write_bytes, StorageError, MAX_RECORD_PAYLOAD_LEN};
use vstd::prelude::*;

verus! {

pub const WAL_HEADER_LEN: usize = 36;
pub const WAL_VERSION: u16 = 1;
pub const WAL_STATE_COMMITTED: u8 = 1;
pub const WAL_STATE_ROLLED_BACK: u8 = 2;
pub const WAL_PAYLOAD_KIND_PAGE_APPEND: u8 = 1;

pub open spec fn wal_magic() -> Seq<u8> {
    seq![0x50u8, 0x44u8, 0x42u8, 0x57u8, 0x41u8, 0x4cu8, 0x31u8, 0u8]
}

/// The sum of the first `n` bytes of `f`, leaving out the checksum field.
pub open spec fn byte_sum(f: Seq<u8>, n: int) -> int
    decreases n,
{
    if n <= 0 {
        0
    } else {
        byte_sum(f, n - 1) + (if 32 <= n - 1 < 36 {
            0
        } else {
            f[n - 1] as int
        })
    }
}

/// The checksum of a frame: the sum of its bytes outside the checksum
/// field, modulo 2^32.
pub open spec fn frame_checksum(f: Seq<u8>) -> int {
    byte_sum(f, f.len() as int) % 4294967296
}

/// Scans the frames from `off` on, given the store's record count `count`:
/// the payloads of the committed frames that apply in turn, and the offset
/// where the scan stopped (the end, or the start of an incomplete frame).
pub open spec fn wal_scan(w: Seq<u8>, off: int, count: int) -> Result<(Seq<Seq<u8>>, int), StorageError>
    decreases w.len() - off,
{
    if off >= w.len() || w.len() - off < 36 {
        Ok((Seq::empty(), off))
    } else if w.subrange(off, off + 8) != wal_magic() {
        Err(StorageError::InvalidMagic)
    } else if le16(w, off + 8) != 1 {
        Err(StorageError::UnsupportedVersion)
    } else {
        let before = le64(w, off + 18);
        let state = w[off + 26];
        let kind = w[off + 27];
        let plen = le32(w, off + 28);
        let flen = 36 + plen;
        if flen > usize::MAX {
            Err(StorageError::CorruptRecordLength)
        } else if w.len() - off < flen {
            Ok((Seq::empty(), off))
        } else if le32(w, off + 32) != frame_checksum(w.subrange(off, off + flen)) {
            Err(StorageError::CorruptRecordLength)
        } else if state == 1 && kind == 1 {
            if count == before {
                if plen > 4076 {
                    Err(StorageError::RecordTooLarge)
                } else if count + 1 > u64::MAX {
                    Err(StorageError::Io)
                } else {
                    match wal_scan(w, off + flen, count + 1) {
                        Ok((rest, end)) => Ok((seq![w.subrange(off + 36, off + flen)] + rest, end)),
                        Err(e) => Err(e),
                    }
                }
            } else if count < before {
                Err(StorageError::CorruptRecordLength)
            } else {
                wal_scan(w, off + flen, count)
            }
        } else if state != 2 {
            Err(StorageError::InvalidMagic)
        } else {
            wal_scan(w, off + flen, count)
        }
    }
}

/// The number of whole frames from `off` on, going by their lengths alone,
/// and the offset where counting stopped.
pub open spec fn count_frames(w: Seq<u8>, off: int) -> (int, int)
    decreases w.len() - off,
{
    if off < 0 || off + 36 > w.len() {
        (0, off)
    } else {
        let flen = 36 + le32(w, off + 28);
        if flen > usize::MAX || off + flen > w.len() {
            (0, off)
        } else {
            let (n, end) = count_frames(w, off + flen);
            (n + 1, end)
        }
    }
}

/// A committed page-append frame.
pub open spec fn frame_bytes(id: int, before: int, payload: Seq<u8>) -> Seq<u8> {
    let head = wal_magic() + bytes16(1) + bytes64(id) + bytes64(before) + seq![1u8, 1u8] + bytes32(
        payload.len() as int,
    );
    let blank = head + bytes32(0) + payload;
    head + bytes32(frame_checksum(blank)) + payload
}


/// `done` followed by what a scan found.
pub open spec fn prepend_scan(
    done: Seq<Seq<u8>>,
    r: Result<(Seq<Seq<u8>>, int), StorageError>,
) -> Result<(Seq<Seq<u8>>, int), StorageError> {
    match r {
        Ok((rest, end)) => Ok((done + rest, end)),
        Err(e) => Err(e),
    }
}

pub fn wal_magic_bytes() -> (r: Vec<u8>)
    ensures
        r@ == wal_magic(),
{
    let r: Vec<u8> = vec![0x50u8, 0x44u8, 0x42u8, 0x57u8, 0x41u8, 0x4cu8, 0x31u8, 0u8];
    assert(r@ =~= wal_magic());
    r
}

/// The checksum of the frame `w[off..off + len]`.
pub fn checksum_at(w: &[u8], off: usize, len: usize) -> (r: u32)
    requires
        off + len <= w@.len(),
    ensures
        r == frame_checksum(w@.subrange(off as int, off + len)),
{
    let ghost f = w@.subrange(off as int, off + len);
    let n = w.len();
    let mut sum: u128 = 0;
    let mut i: usize = 0;
    while i < len
        invariant
            off + len <= w@.len() == n,
            f == w@.subrange(off as int, off + len),
            i <= len,
            sum == byte_sum(f, i as int),
            sum <= 255 * i,
        decreases len - i,
    {
        if i < 32 || i >= 36 {
            sum = sum + w[off + i] as u128;
        }
        i = i + 1;
    }
    (sum % 4294967296) as u32
}

/// Scans a whole write-ahead log, given the store's record count.
pub fn scan_wal(w: &[u8], count: u64) -> (r: Result<(Vec<Vec<u8>>, usize), StorageError>)
    ensures
        match wal_scan(w@, 0, count as int) {
            Ok((found, end)) => r matches Ok((v, e)) && rec_view(v@) == found && e == end,
            Err(e) => r == Err::<(Vec<Vec<u8>>, usize), StorageError>(e),
        },
{
    let len = w.len();
    let magic = wal_magic_bytes();
    let mut offset: usize = 0;
    let mut vcount: u64 = count;
    let mut found: Vec<Vec<u8>> = Vec::new();
    assert(rec_view(found@) =~= Seq::<Seq<u8>>::empty());
    assert(prepend_scan(Seq::empty(), wal_scan(w@, 0, count as int)) == wal_scan(w@, 0, count as int)) by {
        match wal_scan(w@, 0, count as int) {
            Ok((rest, end)) => {
                assert(Seq::<Seq<u8>>::empty() + rest =~= rest);
            },
            Err(_) => {},
        }
    }
    while offset < len
        invariant
            len == w@.len(),
            magic@ == wal_magic(),
            offset <= len,
            wal_scan(w@, 0, count as int) == prepend_scan(rec_view(found@), wal_scan(w@, offset as int, vcount as int)),
        decreases len - offset,
    {
        let remaining = len - offset;
        if remaining < WAL_HEADER_LEN {
            return Ok((found, offset));
        }
        if !bytes_match_at(w, offset, magic.as_slice()) {
            return Err(StorageError::InvalidMagic);
        }
        if read_le16(w, offset + 8) != WAL_VERSION {
            return Err(StorageError::UnsupportedVersion);
        }
        let before = read_le64(w, offset + 18);
        let state = w[offset + 26];
        let kind = w[offset + 27];
        let payload_len = read_le32(w, offset + 28) as usize;
        let frame_len = match WAL_HEADER_LEN.checked_add(payload_len) {
            Some(n) => n,
            None => {
                return Err(StorageError::CorruptRecordLength);
            },
        };
        if remaining < frame_len {
            return Ok((found, offset));
        }
        let expected = read_le32(w, offset + 32);
        if expected != checksum_at(w, offset, frame_len) {
            return Err(StorageError::CorruptRecordLength);
        }
        if state == WAL_STATE_COMMITTED && kind == WAL_PAYLOAD_KIND_PAGE_APPEND {
            if vcount == before {
                if payload_len > MAX_RECORD_PAYLOAD_LEN {
                    return Err(StorageError::RecordTooLarge);
                }
                let payload = copy_range(w, offset + WAL_HEADER_LEN, offset + frame_len);
                let ghost found_before = rec_view(found@);
                found.push(payload);
                assert(rec_view(found@) =~= found_before.push(payload@));
                vcount = match vcount.checked_add(1) {
                    Some(n) => n,
                    None => {
                        return Err(StorageError::Io);
                    },
                };
                proof {
                    let rest = wal_scan(w@, offset + frame_len, vcount as int);
                    match rest {
                        Ok((more, end)) => {
                            assert(found_before + (seq![payload@] + more) =~= found_before.push(payload@) + more);
                        },
                        Err(_) => {},
                    }
                }
            } else if vcount < before {
                return Err(StorageError::CorruptRecordLength);
            }
        } else if state != WAL_STATE_ROLLED_BACK {
            return Err(StorageError::InvalidMagic);
        }
        offset = offset + frame_len;
    }
    proof {
        assert(wal_scan(w@, offset as int, vcount as int) == Ok::<(Seq<Seq<u8>>, int), StorageError>((Seq::empty(), offset as int)));
        assert(rec_view(found@) + Seq::<Seq<u8>>::empty() =~= rec_view(found@));
    }
    Ok((found, offset))
}


/// The checksum does not read the checksum field.
pub proof fn lemma_byte_sum_ignores_field(f: Seq<u8>, g: Seq<u8>, n: int)
    requires
        n <= f.len(),
        n <= g.len(),
        forall|k: int| 0 <= k < n && !(32 <= k < 36) ==> f[k] == g[k],
    ensures
        byte_sum(f, n) == byte_sum(g, n),
    decreases n,
{
    if n > 0 {
        lemma_byte_sum_ignores_field(f, g, n - 1);
    }
}

/// What a frame built by `frame_bytes` holds.
pub proof fn lemma_frame_fields(id: int, before: int, payload: Seq<u8>)
    requires
        0 <= id < 18446744073709551616,
        0 <= before < 18446744073709551616,
        payload.len() < 4294967296,
    ensures
        ({
            let f = frame_bytes(id, before, payload);
            &&& f.len() == 36 + payload.len()
            &&& f.subrange(0, 8) == wal_magic()
            &&& le16(f, 8) == 1
            &&& le64(f, 18) == before
            &&& f[26] == 1u8
            &&& f[27] == 1u8
            &&& le32(f, 28) == payload.len()
            &&& le32(f, 32) == frame_checksum(f)
            &&& f.subrange(36, f.len() as int) == payload
        }),
{
    let head = wal_magic() + bytes16(1) + bytes64(id) + bytes64(before) + seq![1u8, 1u8] + bytes32(
        payload.len() as int,
    );
    let blank = head + bytes32(0) + payload;
    let f = frame_bytes(id, before, payload);
    let cs = frame_checksum(blank);
    lemma_bytes16(1);
    lemma_bytes64(id);
    lemma_bytes64(before);
    lemma_bytes32(payload.len() as int);
    lemma_bytes32(0);
    lemma_bytes32(cs);
    assert(head.len() == 32);
    assert(f.subrange(0, 8) =~= wal_magic());
    assert(le16(f, 8) == le16(bytes16(1), 0));
    assert(le64(f, 18) == le64(bytes64(before), 0));
    assert(le32(f, 28) == le32(bytes32(payload.len() as int), 0));
    assert(le32(f, 32) == le32(bytes32(cs), 0));
    assert(f.subrange(36, f.len() as int) =~= payload);
    lemma_byte_sum_ignores_field(f, blank, f.len() as int);
}

/// A log counts no fewer than zero frames.
pub proof fn lemma_count_frames_nonneg(w: Seq<u8>, off: int)
    ensures
        count_frames(w, off).0 >= 0,
    decreases w.len() - off,
{
    if off >= 0 && off + 36 <= w.len() {
        let flen = 36 + le32(w, off + 28);
        if flen <= usize::MAX && off + flen <= w.len() {
            lemma_count_frames_nonneg(w, off + flen);
        }
    }
}

/// A committed frame appended after a log that scans to its end, and
/// written for the record that comes next, is replayed as that record.
pub proof fn lemma_scan_next_frame(w: Seq<u8>, c: int, id: int, payload: Seq<u8>)
    requires
        0 <= c,
        wal_scan(w, 0, c) matches Ok((_, e)) && e == w.len(),
        0 <= id < 18446744073709551616,
        c + wal_scan(w, 0, c)->Ok_0.0.len() + 1 <= u64::MAX,
        payload.len() <= 4076,
        w.len() + 36 + payload.len() <= usize::MAX,
    ensures
        ({
            let applied = wal_scan(w, 0, c)->Ok_0.0;
            let f = frame_bytes(id, c + applied.len(), payload);
            wal_scan(w + f, 0, c) == Ok::<(Seq<Seq<u8>>, int), StorageError>((applied.push(payload), (w + f).len() as int))
        }),
{
    let applied = wal_scan(w, 0, c)->Ok_0.0;
    let n = c + applied.len();
    let f = frame_bytes(id, n, payload);
    lemma_frame_fields(id, n, payload);
    lemma_scan_prefix(w, f, 0, c);
    let wf = w + f;
    let off = w.len() as int;
    let flen = f.len() as int;
    assert(wf.subrange(off, off + 8) =~= f.subrange(0, 8));
    assert(le16(wf, off + 8) == le16(f, 8));
    assert(le64(wf, off + 18) == le64(f, 18));
    assert(wf[off + 26] == f[26]);
    assert(wf[off + 27] == f[27]);
    assert(le32(wf, off + 28) == le32(f, 28));
    assert(le32(wf, off + 32) == le32(f, 32));
    assert(wf.subrange(off, off + flen) =~= f);
    assert(wf.subrange(off + 36, off + flen) =~= payload);
    assert(wal_scan(wf, off + flen, n + 1) == Ok::<(Seq<Seq<u8>>, int), StorageError>((Seq::empty(), off + flen)));
    assert(seq![payload] + Seq::<Seq<u8>>::empty() =~= seq![payload]);
    assert(applied + seq![payload] =~= applied.push(payload));
}

/// A scan that applied nothing applies nothing with a larger record count.
pub proof fn lemma_scan_skip_all(w: Seq<u8>, off: int, c: int, c2: int)
    requires
        c <= c2,
        wal_scan(w, off, c) matches Ok((r, _)) && r.len() == 0,
    ensures
        wal_scan(w, off, c2) == wal_scan(w, off, c),
    decreases w.len() - off,
{
    if off >= w.len() || w.len() - off < 36 {
    } else {
        let plen = le32(w, off + 28);
        let flen = 36 + plen;
        if w.subrange(off, off + 8) == wal_magic() && le16(w, off + 8) == 1 && flen <= usize::MAX
            && w.len() - off >= flen && le32(w, off + 32) == frame_checksum(w.subrange(off, off + flen)) {
            lemma_scan_skip_all(w, off + flen, c, c2);
        }
    }
}

/// Scanning a log with more bytes after a complete scan continues where the
/// first scan ended.
pub proof fn lemma_scan_prefix(w: Seq<u8>, f: Seq<u8>, off: int, c: int)
    requires
        0 <= off,
        wal_scan(w, off, c) matches Ok((_, e)) && e == w.len(),
    ensures
        wal_scan(w + f, off, c) == prepend_scan(
            wal_scan(w, off, c)->Ok_0.0,
            wal_scan(w + f, w.len() as int, c + wal_scan(w, off, c)->Ok_0.0.len()),
        ),
    decreases w.len() - off,
{
    let wf = w + f;
    if off >= w.len() {
        assert(off == w.len());
        match wal_scan(wf, off, c) {
            Ok((rest, end)) => {
                assert(Seq::<Seq<u8>>::empty() + rest =~= rest);
            },
            Err(_) => {},
        }
    } else {
        assert(w.len() - off >= 36);
        let plen = le32(w, off + 28);
        let flen = 36 + plen;
        assert(wf.subrange(off, off + 8) =~= w.subrange(off, off + 8));
        assert(le16(wf, off + 8) == le16(w, off + 8));
        assert(le64(wf, off + 18) == le64(w, off + 18));
        assert(wf[off + 26] == w[off + 26]);
        assert(wf[off + 27] == w[off + 27]);
        assert(le32(wf, off + 28) == plen);
        assert(le32(wf, off + 32) == le32(w, off + 32));
        assert(w.len() - off >= flen);
        assert(wf.subrange(off, off + flen) =~= w.subrange(off, off + flen));
        assert(wf.subrange(off + 36, off + flen) =~= w.subrange(off + 36, off + flen));
        let before = le64(w, off + 18);
        if w[off + 26] == 1 && w[off + 27] == 1 && c == before {
            lemma_scan_prefix(w, f, off + flen, c + 1);
            let r1 = wal_scan(w, off + flen, c + 1)->Ok_0.0;
            let x = w.subrange(off + 36, off + flen);
            assert(wal_scan(w, off, c)->Ok_0.0 == seq![x] + r1);
            assert(c + 1 + r1.len() == c + (seq![x] + r1).len());
            match wal_scan(wf, w.len() as int, c + 1 + r1.len()) {
                Ok((rest, end)) => {
                    assert(seq![x] + (r1 + rest) =~= (seq![x] + r1) + rest);
                },
                Err(_) => {},
            }
        } else {
            lemma_scan_prefix(w, f, off + flen, c);
        }
    }
}

/// Scanning the log cut at the end of a scan, with the record count the
/// scan reached, applies nothing and ends at the cut.
pub proof fn lemma_scan_replayed(w: Seq<u8>, off: int, c: int, c2: int)
    requires
        0 <= off <= w.len(),
        wal_scan(w, off, c) matches Ok((r, _)) && c + r.len() <= c2,
    ensures
        ({
            let e = wal_scan(w, off, c)->Ok_0.1;
            let cut = w.subrange(0, e);
            &&& off <= e <= w.len()
            &&& wal_scan(cut, off, c2) == Ok::<(Seq<Seq<u8>>, int), StorageError>((Seq::empty(), e))
            &&& count_frames(cut, off).1 == e
        }),
    decreases w.len() - off,
{
    let e = wal_scan(w, off, c)->Ok_0.1;
    if off >= w.len() || w.len() - off < 36 {
        let cut = w.subrange(0, e);
        assert(e == off);
    } else {
        let plen = le32(w, off + 28);
        let flen = 36 + plen;
        let before = le64(w, off + 18);
        if w.len() - off < flen {
            assert(e == off);
        } else {
            let applied = w[off + 26] == 1 && w[off + 27] == 1 && c == before;
            let c_next = if applied { c + 1 } else { c };
            lemma_scan_replayed(w, off + flen, c_next, c2);
            let cut = w.subrange(0, e);
            assert(e >= off + flen);
            assert(cut.subrange(off, off + 8) =~= w.subrange(off, off + 8));
            assert(le16(cut, off + 8) == le16(w, off + 8));
            assert(le64(cut, off + 18) == before);
            assert(cut[off + 26] == w[off + 26]);
            assert(cut[off + 27] == w[off + 27]);
            assert(le32(cut, off + 28) == plen);
            assert(le32(cut, off + 32) == le32(w, off + 32));
            assert(cut.subrange(off, off + flen) =~= w.subrange(off, off + flen));
            if applied {
                let r1 = wal_scan(w, off + flen, c + 1)->Ok_0.0;
                assert(wal_scan(w, off, c)->Ok_0.0.len() == 1 + r1.len());
                assert(c2 > before);
            }
            assert(count_frames(cut, off + flen).1 == e);
        }
    }
}

/// Counting frames of a log with one more whole frame at its end.
pub proof fn lemma_count_frames_append(w: Seq<u8>, f: Seq<u8>, off: int)
    requires
        0 <= off,
        count_frames(w, off).1 == w.len(),
        f.len() >= 36,
        f.len() == 36 + le32(f, 28),
        f.len() <= usize::MAX,
    ensures
        count_frames(w + f, off) == (count_frames(w, off).0 + 1, (w.len() + f.len()) as int),
    decreases w.len() - off,
{
    let wf = w + f;
    if off + 36 > w.len() {
        assert(off == w.len());
        assert(le32(wf, off + 28) == le32(f, 28));
        assert(count_frames(wf, off + f.len()) == (0int, off + f.len()));
    } else {
        let flen = 36 + le32(w, off + 28);
        assert(le32(wf, off + 28) == le32(w, off + 28));
        lemma_count_frames_append(w, f, off + flen);
    }
}


/// Builds a committed page-append frame.
pub fn build_frame(id: u64, before: u64, payload: &[u8]) -> (r: Vec<u8>)
    requires
        payload@.len() <= MAX_RECORD_PAYLOAD_LEN,
    ensures
        r@ == frame_bytes(id as int, before as int, payload@),
{
    let mut frame: Vec<u8> = Vec::new();
    let magic = wal_magic_bytes();
    push_all(&mut frame, magic.as_slice());
    push_le16(&mut frame, WAL_VERSION);
    push_le64(&mut frame, id);
    push_le64(&mut frame, before);
    frame.push(WAL_STATE_COMMITTED);
    frame.push(WAL_PAYLOAD_KIND_PAGE_APPEND);
    push_le32(&mut frame, payload.len() as u32);
    let ghost head = frame@;
    push_le32(&mut frame, 0);
    push_all(&mut frame, payload);
    let ghost blank = frame@;
    assert(head =~= wal_magic() + bytes16(1) + bytes64(id as int) + bytes64(before as int) + seq![1u8, 1u8]
        + bytes32(payload@.len() as int));
    assert(blank =~= head + bytes32(0) + payload@);
    let len = frame.len();
    let sum = checksum_at(frame.as_slice(), 0, len);
    assert(blank.subrange(0, len as int) =~= blank);
    let mut field: Vec<u8> = Vec::new();
    push_le32(&mut field, sum);
    assert(field@ =~= bytes32(sum as int));
    write_bytes(&mut frame, 32, field.as_slice());
    assert(frame@ =~= head + bytes32(frame_checksum(blank)) + payload@);
    frame
}

/// Counts the whole frames of a log by their lengths alone.
pub fn count_wal_frames(w: &[u8]) -> (r: u64)
    ensures
        r == count_frames(w@, 0).0,
{
    let len = w.len();
    let mut offset: usize = 0;
    let mut frames: u64 = 0;
    let mut done = false;
    while !done && len - offset >= WAL_HEADER_LEN
        invariant
            len == w@.len(),
            offset <= len,
            frames as int + count_frames(w@, offset as int).0 == count_frames(w@, 0).0,
            done ==> count_frames(w@, offset as int).0 == 0,
            frames <= offset,
        decreases len - offset, (if done { 0int } else { 1int }),
    {
        let payload_len = read_le32(w, offset + 28) as usize;
        match WAL_HEADER_LEN.checked_add(payload_len) {
            Some(frame_len) => {
                if frame_len > len - offset {
                    done = true;
                } else {
                    frames = frames + 1;
                    offset = offset + frame_len;
                }
            },
            None => {
                done = true;
            },
        }
    }
    frames
}


/// What a successful scan found lies inside the scanned bytes: each applied
/// payload fits a data page and takes a frame of at least 36 bytes.
pub proof fn lemma_scan_bounds(w: Seq<u8>, off: int, c: int)
    requires
        0 <= off <= w.len(),
        wal_scan(w, off, c) is Ok,
    ensures
        ({
            let (r, e) = wal_scan(w, off, c)->Ok_0;
            &&& off <= e <= w.len()
            &&& 36 * r.len() <= e - off
            &&& (r.len() > 0 ==> c + r.len() <= u64::MAX)
            &&& forall|k: int| 0 <= k < r.len() ==> #[trigger] r[k].len() <= 4076
        }),
    decreases w.len() - off,
{
    if off >= w.len() || w.len() - off < 36 {
    } else {
        let plen = le32(w, off + 28);
        let flen = 36 + plen;
        let before = le64(w, off + 18);
        if w.len() - off < flen {
        } else if w[off + 26] == 1 && w[off + 27] == 1 && c == before {
            lemma_scan_bounds(w, off + flen, c + 1);
            let r1 = wal_scan(w, off + flen, c + 1)->Ok_0.0;
            let x = w.subrange(off + 36, off + flen);
            let r = wal_scan(w, off, c)->Ok_0.0;
            assert(r == seq![x] + r1);
            assert forall|k: int| 0 <= k < r.len() implies #[trigger] r[k].len() <= 4076 by {
                if k > 0 {
                    assert(r[k] == r1[k - 1]);
                }
            }
        } else {
            lemma_scan_bounds(w, off + flen, c);
        }
    }
}

} // verus!
