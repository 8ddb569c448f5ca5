//! The paged file format: a header page followed by data pages, each data
//! page holding length-prefixed records.
//!
//! Header page: bytes 0..8 magic `PDBV1\0\0\0`, 8..10 format version (1),
//! 10..12 and 12..16 the page size (4096) as u16 and u32, 16..24 the page
//! count. Data page: bytes 0..4 magic `PDPG`, 4..6 version, 6..8 header
//! size (16), 8..10 bytes used, 10..12 record count, then records, each a
//! u32 length followed by the payload.
use crate::bytes::{
    bytes16, bytes32, bytes64, bytes_match_at, copy_range, le16, le32, le64, lemma_bytes16, lemma_bytes32,
    lemma_bytes64, push_all, push_le16, push_le32, push_le64, read_le16, read_le32, read_le64,
};
use vstd::prelude::*;

verus! {

pub const PAGE_SIZE: usize = 4096;
pub const DATA_PAGE_HEADER_SIZE: usize = 16;
pub const RECORD_LENGTH_SIZE: usize = 4;
pub const FORMAT_VERSION: u16 = 1;
pub const FILE_HEADER_PAGE_COUNT_OFFSET: usize = 16;
pub const DATA_PAGE_USED_OFFSET: usize = 8;
pub const DATA_PAGE_RECORD_COUNT_OFFSET: usize = 10;

/// Largest payload that fits in one data page.
pub const MAX_RECORD_PAYLOAD_LEN: usize = 4076;

/// Why a store file or a write-ahead log was refused.
#[derive(Debug, Clone, Copy, PartialEq, Eq, Structural)]
pub enum StorageError {
    TruncatedFile,
    TruncatedPage,
    InvalidMagic,
    UnsupportedVersion,
    RecordTooLarge,
    CorruptRecordLength,
    Io,
}

pub open spec fn file_magic() -> Seq<u8> {
    seq![0x50u8, 0x44u8, 0x42u8, 0x56u8, 0x31u8, 0u8, 0u8, 0u8]
}

pub open spec fn page_magic() -> Seq<u8> {
    seq![0x50u8, 0x44u8, 0x50u8, 0x47u8]
}

/// Page `i` of a file image.
pub open spec fn page_of(image: Seq<u8>, i: int) -> Seq<u8> {
    image.subrange(i * 4096, i * 4096 + 4096)
}

/// The checks on the header page, in the order they are made.
pub open spec fn header_check(p: Seq<u8>) -> Result<(), StorageError> {
    if p.subrange(0, 8) != file_magic() {
        Err(StorageError::InvalidMagic)
    } else if le16(p, 8) != 1 {
        Err(StorageError::UnsupportedVersion)
    } else if le16(p, 10) != 4096 || le32(p, 12) != 4096 {
        Err(StorageError::InvalidMagic)
    } else {
        Ok(())
    }
}

/// The `n` records that start at `off` and end at or before `used`, with the
/// offset just after the last of them.
pub open spec fn parse_records(p: Seq<u8>, off: int, n: nat, used: int) -> Option<(Seq<Seq<u8>>, int)>
    decreases n,
{
    if n == 0 {
        Some((Seq::empty(), off))
    } else if off + 4 > used {
        None
    } else {
        let start = off + 4;
        let end = start + le32(p, off);
        if end > used {
            None
        } else {
            match parse_records(p, end, (n - 1) as nat, used) {
                Some((rest, last)) => Some((seq![p.subrange(start, end)] + rest, last)),
                None => None,
            }
        }
    }
}

/// The checks on a data page, in the order they are made, and its records.
pub open spec fn page_check(p: Seq<u8>) -> Result<Seq<Seq<u8>>, StorageError> {
    if p.subrange(0, 4) != page_magic() {
        Err(StorageError::InvalidMagic)
    } else if le16(p, 4) != 1 {
        Err(StorageError::UnsupportedVersion)
    } else if le16(p, 6) != 16 {
        Err(StorageError::InvalidMagic)
    } else if !(16 <= le16(p, 8) <= 4096) {
        Err(StorageError::CorruptRecordLength)
    } else {
        match parse_records(p, 16, le16(p, 10) as nat, le16(p, 8)) {
            Some((records, end)) => if end == le16(p, 8) {
                Ok(records)
            } else {
                Err(StorageError::CorruptRecordLength)
            },
            None => Err(StorageError::CorruptRecordLength),
        }
    }
}

/// Data pages `from..to` checked in order; their records concatenated.
pub open spec fn pages_check(image: Seq<u8>, from: int, to: int) -> Result<Seq<Seq<u8>>, StorageError>
    decreases to - from,
{
    if from >= to {
        Ok(Seq::empty())
    } else {
        match page_check(page_of(image, from)) {
            Err(e) => Err(e),
            Ok(first) => match pages_check(image, from + 1, to) {
                Err(e) => Err(e),
                Ok(rest) => Ok(first + rest),
            },
        }
    }
}

/// The page count that the header page records.
pub open spec fn header_page_count(image: Seq<u8>) -> int {
    le64(image, 16)
}

/// The checks on a whole store file, in the order they are made, and the
/// records it holds in order.
pub open spec fn file_check(image: Seq<u8>) -> Result<Seq<Seq<u8>>, StorageError> {
    if image.len() < 4096 {
        Err(StorageError::TruncatedFile)
    } else if image.len() % 4096 != 0 {
        Err(StorageError::TruncatedPage)
    } else {
        match header_check(page_of(image, 0)) {
            Err(e) => Err(e),
            Ok(_) => {
                let count = header_page_count(image);
                if count == 0 {
                    Err(StorageError::TruncatedFile)
                } else if image.len() / 4096 != count {
                    Err(StorageError::TruncatedPage)
                } else {
                    pages_check(image, 1, count)
                }
            },
        }
    }
}

/// Parsing `a + b` records is parsing `a` records and then `b` more.
pub proof fn lemma_parse_split(p: Seq<u8>, off: int, a: nat, b: nat, used: int)
    ensures
        parse_records(p, off, a + b, used) == (match parse_records(p, off, a, used) {
            Some((r1, e1)) => match parse_records(p, e1, b, used) {
                Some((r2, e2)) => Some((r1 + r2, e2)),
                None => None,
            },
            None => None,
        }),
    decreases a,
{
    if a == 0 {
        match parse_records(p, off, b, used) {
            Some((r2, e2)) => {
                assert(Seq::<Seq<u8>>::empty() + r2 =~= r2);
            },
            None => {},
        }
    } else {
        let start = off + 4;
        let end = start + le32(p, off);
        if off + 4 > used || end > used {
        } else {
            lemma_parse_split(p, end, (a - 1) as nat, b, used);
            assert((a + b - 1) as nat == ((a - 1) as nat + b) as nat);
            match parse_records(p, end, (a - 1) as nat, used) {
                Some((r1, e1)) => match parse_records(p, e1, b, used) {
                    Some((r2, e2)) => {
                        assert(seq![p.subrange(start, end)] + (r1 + r2) =~= (seq![
                            p.subrange(start, end),
                        ] + r1) + r2);
                    },
                    None => {},
                },
                None => {},
            }
        }
    }
}

/// Parsed records lie in `off..used`, each taking at least four bytes.
pub proof fn lemma_parse_bounds(p: Seq<u8>, off: int, n: nat, used: int)
    ensures
        parse_records(p, off, n, used) matches Some((r, e)) ==> r.len() == n && off + 4 * n <= e
            && (n > 0 ==> e <= used),
    decreases n,
{
    if n > 0 {
        let end = off + 4 + le32(p, off);
        lemma_parse_bounds(p, end, (n - 1) as nat, used);
    }
}

/// Parsing reads only the bytes in `off..used`.
pub proof fn lemma_parse_frame(p: Seq<u8>, q: Seq<u8>, off: int, n: nat, used: int)
    requires
        0 <= off,
        used <= p.len(),
        used <= q.len(),
        forall|k: int| off <= k < used ==> p[k] == q[k],
    ensures
        parse_records(p, off, n, used) == parse_records(q, off, n, used),
    decreases n,
{
    if n > 0 && off + 4 <= used {
        assert(le32(p, off) == le32(q, off));
        let start = off + 4;
        let end = start + le32(p, off);
        if end <= used {
            assert(p.subrange(start, end) =~= q.subrange(start, end));
            if le32(p, off) >= 0 {
                lemma_parse_frame(p, q, end, (n - 1) as nat, used);
            }
        }
    }
}


/// The page that starts at byte `base`.
pub open spec fn page_at(image: Seq<u8>, base: int) -> Seq<u8> {
    image.subrange(base, base + 4096)
}

/// The contents of a list of byte vectors.
pub open spec fn rec_view(v: Seq<Vec<u8>>) -> Seq<Seq<u8>> {
    v.map_values(|x: Vec<u8>| x@)
}

pub fn file_magic_bytes() -> (r: Vec<u8>)
    ensures
        r@ == file_magic(),
{
    let r: Vec<u8> = vec![0x50u8, 0x44u8, 0x42u8, 0x56u8, 0x31u8, 0u8, 0u8, 0u8];
    assert(r@ =~= file_magic());
    r
}

pub fn page_magic_bytes() -> (r: Vec<u8>)
    ensures
        r@ == page_magic(),
{
    let r: Vec<u8> = vec![0x50u8, 0x44u8, 0x50u8, 0x47u8];
    assert(r@ =~= page_magic());
    r
}

/// Checks the header page at the start of `image`.
pub fn check_header(image: &[u8]) -> (r: Result<(), StorageError>)
    requires
        image@.len() >= 4096,
    ensures
        r == header_check(page_of(image@, 0)),
{
    let p = Ghost(page_of(image@, 0));
    let magic = file_magic_bytes();
    if !bytes_match_at(image, 0, magic.as_slice()) {
        assert(p@.subrange(0, 8) =~= image@.subrange(0, 8));
        return Err(StorageError::InvalidMagic);
    }
    assert(p@.subrange(0, 8) =~= image@.subrange(0, 8));
    if read_le16(image, 8) != FORMAT_VERSION {
        return Err(StorageError::UnsupportedVersion);
    }
    if read_le16(image, 10) != 4096 || read_le32(image, 12) != 4096 {
        return Err(StorageError::InvalidMagic);
    }
    Ok(())
}

/// Checks the data page that starts at byte `base` of `image`.
pub fn check_data_page(image: &[u8], base: usize) -> (r: Result<(), StorageError>)
    requires
        base + 4096 <= image@.len(),
    ensures
        match page_check(page_at(image@, base as int)) {
            Ok(_) => r is Ok,
            Err(e) => r == Err::<(), StorageError>(e),
        },
{
    let ghost p = page_at(image@, base as int);
    let n = image.len();
    let magic = page_magic_bytes();
    if !bytes_match_at(image, base, magic.as_slice()) {
        assert(p.subrange(0, 4) =~= image@.subrange(base as int, base + 4));
        return Err(StorageError::InvalidMagic);
    }
    assert(p.subrange(0, 4) =~= image@.subrange(base as int, base + 4));
    if read_le16(image, base + 4) != FORMAT_VERSION {
        return Err(StorageError::UnsupportedVersion);
    }
    if read_le16(image, base + 6) != 16 {
        return Err(StorageError::InvalidMagic);
    }
    let used = read_le16(image, base + DATA_PAGE_USED_OFFSET) as u64;
    if used < 16 || used > 4096 {
        return Err(StorageError::CorruptRecordLength);
    }
    let count = read_le16(image, base + DATA_PAGE_RECORD_COUNT_OFFSET);
    assert(used == le16(p, 8) && count == le16(p, 10));
    let mut offset: u64 = 16;
    let mut i: u16 = 0;
    while i < count
        invariant
            base + 4096 <= image@.len() == n,
            p == page_at(image@, base as int),
            16 <= used <= 4096,
            used == le16(p, 8),
            count == le16(p, 10),
            p.subrange(0, 4) == page_magic(),
            le16(p, 4) == 1,
            le16(p, 6) == 16,
            i <= count,
            offset <= used,
            parse_records(p, 16, i as nat, used as int) matches Some((_, e)) && e == offset,
        decreases count - i,
    {
        proof {
            lemma_parse_split(p, 16, i as nat, (count - i) as nat, used as int);
            assert((i as nat + (count - i) as nat) as nat == count as nat);
        }
        if offset + 4 > used {
            return Err(StorageError::CorruptRecordLength);
        }
        let len = read_le32(image, base + offset as usize) as u64;
        assert(len == le32(p, offset as int));
        if offset + 4 + len > used {
            assert(parse_records(p, offset as int, (count - i) as nat, used as int) is None);
            return Err(StorageError::CorruptRecordLength);
        }
        proof {
            lemma_parse_split(p, 16, i as nat, 1, used as int);
            assert((i + 1) as nat == (i as nat + 1) as nat);
            let e1 = offset + 4 + len;
            assert(parse_records(p, e1, 0, used as int) == Some((Seq::<Seq<u8>>::empty(), e1)));
        }
        offset = offset + 4 + len;
        i = i + 1;
    }
    assert((count - 0) as nat == count as nat);
    if offset != used {
        return Err(StorageError::CorruptRecordLength);
    }
    Ok(())
}

/// Appends the records of the valid data page at byte `base` to `out`.
pub fn read_page_records(image: &[u8], base: usize, out: &mut Vec<Vec<u8>>)
    requires
        base + 4096 <= image@.len(),
        page_check(page_at(image@, base as int)) is Ok,
    ensures
        rec_view(final(out)@) == rec_view(old(out)@) + page_check(page_at(image@, base as int))->Ok_0,
{
    let ghost p = page_at(image@, base as int);
    let ghost recs = page_check(p)->Ok_0;
    let n = image.len();
    let used = read_le16(image, base + DATA_PAGE_USED_OFFSET) as usize;
    let count = read_le16(image, base + DATA_PAGE_RECORD_COUNT_OFFSET);
    let mut offset: usize = 16;
    let mut i: u16 = 0;
    while i < count
        invariant
            base + 4096 <= image@.len() == n,
            p == page_at(image@, base as int),
            used == le16(p, 8),
            16 <= used <= 4096,
            count == le16(p, 10),
            parse_records(p, 16, count as nat, used as int) == Some((recs, used as int)),
            i <= count,
            parse_records(p, 16, i as nat, used as int) matches Some((r, e)) && e == offset
                && rec_view(out@) == rec_view(old(out)@) + r,
        decreases count - i,
    {
        let ghost done = parse_records(p, 16, i as nat, used as int)->Some_0.0;
        proof {
            lemma_parse_split(p, 16, i as nat, (count - i) as nat, used as int);
            assert((i as nat + (count - i) as nat) as nat == count as nat);
            lemma_parse_split(p, 16, i as nat, 1, used as int);
            assert((i + 1) as nat == (i as nat + 1) as nat);
        }
        let len = read_le32(image, base + offset) as usize;
        let start = base + offset + 4;
        let record = copy_range(image, start, start + len);
        assert(record@ =~= p.subrange(offset + 4, offset + 4 + len));
        let ghost out_before = out@;
        out.push(record);
        proof {
            assert(rec_view(out@) =~= rec_view(out_before).push(record@));
            let e1 = offset + 4 + len;
            assert(parse_records(p, e1, 0, used as int) == Some((Seq::<Seq<u8>>::empty(), e1)));
            let r1 = parse_records(p, offset as int, 1, used as int)->Some_0.0;
            assert(r1 =~= seq![p.subrange(offset + 4, offset + 4 + len)]);
            assert(rec_view(out@) =~= rec_view(old(out)@) + (done + r1));
        }
        offset = offset + 4 + len;
        i = i + 1;
    }
    assert((count - 0) as nat == count as nat);
}


/// Checking pages `a..c` is checking `a..b` and then `b..c`.
pub proof fn lemma_pages_split(image: Seq<u8>, a: int, b: int, c: int)
    requires
        a <= b <= c,
    ensures
        pages_check(image, a, c) == (match pages_check(image, a, b) {
            Err(e) => Err(e),
            Ok(r1) => match pages_check(image, b, c) {
                Err(e) => Err(e),
                Ok(r2) => Ok(r1 + r2),
            },
        }),
    decreases b - a,
{
    if a == b {
        match pages_check(image, b, c) {
            Ok(r2) => {
                assert(Seq::<Seq<u8>>::empty() + r2 =~= r2);
            },
            Err(_) => {},
        }
    } else {
        lemma_pages_split(image, a + 1, b, c);
        match page_check(page_of(image, a)) {
            Ok(first) => match pages_check(image, a + 1, b) {
                Ok(r1) => match pages_check(image, b, c) {
                    Ok(r2) => {
                        assert(first + (r1 + r2) =~= (first + r1) + r2);
                    },
                    Err(_) => {},
                },
                Err(_) => {},
            },
            Err(_) => {},
        }
    }
}

/// Checking the single page `a`.
pub proof fn lemma_pages_one(image: Seq<u8>, a: int)
    ensures
        pages_check(image, a, a + 1) == (match page_check(page_of(image, a)) {
            Err(e) => Err(e),
            Ok(r) => Ok(r),
        }),
{
    assert(pages_check(image, a + 1, a + 1) == Ok::<Seq<Seq<u8>>, StorageError>(Seq::empty()));
    match page_check(page_of(image, a)) {
        Ok(r) => {
            assert(r + Seq::<Seq<u8>>::empty() =~= r);
        },
        Err(_) => {},
    }
}

/// Reads the page count of a file whose size and header were checked.
pub fn read_page_count(image: &[u8]) -> (count: u64)
    requires
        image@.len() >= 4096,
    ensures
        count == header_page_count(image@),
{
    read_le64(image, FILE_HEADER_PAGE_COUNT_OFFSET)
}

/// Checks a whole store file.
pub fn validate_file(image: &[u8]) -> (r: Result<(), StorageError>)
    ensures
        match file_check(image@) {
            Ok(_) => r is Ok,
            Err(e) => r == Err::<(), StorageError>(e),
        },
{
    let len = image.len();
    if len < PAGE_SIZE {
        return Err(StorageError::TruncatedFile);
    }
    if len % PAGE_SIZE != 0 {
        return Err(StorageError::TruncatedPage);
    }
    check_header(image)?;
    let count = read_page_count(image);
    if count == 0 {
        return Err(StorageError::TruncatedFile);
    }
    let actual = (len / PAGE_SIZE) as u64;
    if actual < count {
        return Err(StorageError::TruncatedPage);
    }
    if actual > count {
        return Err(StorageError::TruncatedPage);
    }
    let mut i: u64 = 1;
    while i < count
        invariant
            len == image@.len(),
            len / 4096 == count,
            len % 4096 == 0,
            1 <= i <= count,
            file_check(image@) == pages_check(image@, 1, count as int),
            pages_check(image@, 1, i as int) is Ok,
        decreases count - i,
    {
        let base = (i as usize) * PAGE_SIZE;
        proof {
            lemma_pages_split(image@, 1, i as int, count as int);
            lemma_pages_split(image@, i as int, i + 1, count as int);
            lemma_pages_split(image@, 1, i as int, i + 1);
            lemma_pages_one(image@, i as int);
            assert(page_at(image@, base as int) == page_of(image@, i as int));
        }
        check_data_page(image, base)?;
        i = i + 1;
    }
    Ok(())
}

/// All records of a store file, in order.
pub fn read_records(image: &[u8]) -> (r: Result<Vec<Vec<u8>>, StorageError>)
    ensures
        match file_check(image@) {
            Ok(records) => r matches Ok(v) && rec_view(v@) == records,
            Err(e) => r == Err::<Vec<Vec<u8>>, StorageError>(e),
        },
{
    validate_file(image)?;
    let len = image.len();
    let count = read_page_count(image);
    let mut records: Vec<Vec<u8>> = Vec::new();
    assert(rec_view(records@) =~= Seq::<Seq<u8>>::empty());
    let mut i: u64 = 1;
    while i < count
        invariant
            len == image@.len(),
            len / 4096 == count,
            len % 4096 == 0,
            1 <= i <= count,
            file_check(image@) == pages_check(image@, 1, count as int),
            file_check(image@) is Ok,
            pages_check(image@, 1, i as int) == Ok::<Seq<Seq<u8>>, StorageError>(rec_view(records@)),
        decreases count - i,
    {
        let base = (i as usize) * PAGE_SIZE;
        proof {
            lemma_pages_split(image@, 1, i as int, count as int);
            lemma_pages_split(image@, i as int, i + 1, count as int);
            lemma_pages_split(image@, 1, i as int, i + 1);
            lemma_pages_one(image@, i as int);
            assert(page_at(image@, base as int) == page_of(image@, i as int));
        }
        read_page_records(image, base, &mut records);
        i = i + 1;
    }
    Ok(records)
}


/// `s` with the bytes at `off..off + src.len()` replaced by `src`.
pub open spec fn seq_write(s: Seq<u8>, off: int, src: Seq<u8>) -> Seq<u8> {
    s.subrange(0, off) + src + s.subrange(off + src.len(), s.len() as int)
}

/// `n` zero bytes.
pub open spec fn zeros(n: nat) -> Seq<u8> {
    Seq::new(n, |i: int| 0u8)
}

/// A data page that holds no records.
pub open spec fn empty_page() -> Seq<u8> {
    page_magic() + bytes16(1) + bytes16(16) + bytes16(16) + bytes16(0) + zeros(4084)
}

/// The image of a store file that holds no data page.
pub open spec fn fresh_image() -> Seq<u8> {
    file_magic() + bytes16(1) + bytes16(4096) + bytes32(4096) + bytes64(1) + zeros(4072)
}

/// Overwrites `image[off..off + src.len()]` with `src`.
pub fn write_bytes(image: &mut Vec<u8>, off: usize, src: &[u8])
    requires
        off + src@.len() <= old(image)@.len(),
    ensures
        final(image)@ == seq_write(old(image)@, off as int, src@),
{
    let n = image.len();
    let mut i: usize = 0;
    while i < src.len()
        invariant
            n == old(image)@.len(),
            off + src@.len() <= old(image)@.len(),
            image@.len() == old(image)@.len(),
            i <= src@.len(),
            forall|k: int| 0 <= k < image@.len() ==> #[trigger] image@[k] == (if off <= k < off + i {
                src@[k - off]
            } else {
                old(image)@[k]
            }),
        decreases src@.len() - i,
    {
        image.set(off + i, src[i]);
        i = i + 1;
    }
    assert(image@ =~= seq_write(old(image)@, off as int, src@));
}

/// Appends `n` zero bytes.
pub fn push_zeros(out: &mut Vec<u8>, n: usize)
    ensures
        final(out)@ == old(out)@ + zeros(n as nat),
{
    let mut i: usize = 0;
    while i < n
        invariant
            i <= n,
            out@ == old(out)@ + zeros(i as nat),
        decreases n - i,
    {
        out.push(0u8);
        i = i + 1;
        assert(out@ =~= old(out)@ + zeros(i as nat));
    }
}

/// Appends an empty data page.
pub fn push_empty_page(out: &mut Vec<u8>)
    ensures
        final(out)@ == old(out)@ + empty_page(),
{
    let magic = page_magic_bytes();
    push_all(out, magic.as_slice());
    push_le16(out, FORMAT_VERSION);
    push_le16(out, 16);
    push_le16(out, 16);
    push_le16(out, 0);
    push_zeros(out, 4084);
    assert(final(out)@ =~= old(out)@ + empty_page());
}

/// The image of a store file with a header page and no data page.
pub fn fresh_file_image() -> (image: Vec<u8>)
    ensures
        image@ == fresh_image(),
{
    let mut out: Vec<u8> = Vec::new();
    let magic = file_magic_bytes();
    push_all(&mut out, magic.as_slice());
    push_le16(&mut out, FORMAT_VERSION);
    push_le16(&mut out, 4096);
    push_le32(&mut out, 4096);
    push_le64(&mut out, 1);
    push_zeros(&mut out, 4072);
    assert(out@ =~= fresh_image());
    out
}

/// A fresh store file holds no records.
pub proof fn lemma_fresh_image()
    ensures
        fresh_image().len() == 4096,
        file_check(fresh_image()) == Ok::<Seq<Seq<u8>>, StorageError>(Seq::empty()),
{
    let img = fresh_image();
    lemma_bytes16(1);
    lemma_bytes16(4096);
    lemma_bytes32(4096);
    lemma_bytes64(1);
    let p = page_of(img, 0);
    assert(p =~= img);
    assert(img.subrange(0, 8) =~= file_magic());
    assert(le16(img, 8) == le16(bytes16(1), 0));
    assert(le16(img, 10) == le16(bytes16(4096), 0));
    assert(le32(img, 12) == le32(bytes32(4096), 0));
    assert(le64(img, 16) == le64(bytes64(1), 0));
}

/// Parsing with a larger bound gives the same records.
pub proof fn lemma_parse_mono(p: Seq<u8>, off: int, n: nat, used: int, used2: int)
    requires
        used <= used2,
        parse_records(p, off, n, used) is Some,
    ensures
        parse_records(p, off, n, used2) == parse_records(p, off, n, used),
    decreases n,
{
    if n > 0 {
        let end = off + 4 + le32(p, off);
        lemma_parse_mono(p, end, (n - 1) as nat, used, used2);
    }
}

/// An empty data page holds no records.
pub proof fn lemma_empty_page()
    ensures
        empty_page().len() == 4096,
        page_check(empty_page()) == Ok::<Seq<Seq<u8>>, StorageError>(Seq::empty()),
        le16(empty_page(), 8) == 16,
        le16(empty_page(), 10) == 0,
{
    let p = empty_page();
    lemma_bytes16(1);
    lemma_bytes16(16);
    lemma_bytes16(0);
    assert(p.subrange(0, 4) =~= page_magic());
    assert(le16(p, 4) == le16(bytes16(1), 0));
    assert(le16(p, 6) == le16(bytes16(16), 0));
    assert(le16(p, 8) == le16(bytes16(16), 0));
    assert(le16(p, 10) == le16(bytes16(0), 0));
}

/// Checking pages reads only those pages.
pub proof fn lemma_pages_frame(a: Seq<u8>, b: Seq<u8>, from: int, to: int)
    requires
        forall|i: int| from <= i < to ==> page_of(a, i) == page_of(b, i),
    ensures
        pages_check(a, from, to) == pages_check(b, from, to),
    decreases to - from,
{
    if from < to {
        lemma_pages_frame(a, b, from + 1, to);
    }
}


/// The data page `p` with `payload` added as its last record.
pub open spec fn page_with_record(p: Seq<u8>, payload: Seq<u8>) -> Seq<u8> {
    let used = le16(p, 8);
    let count = le16(p, 10);
    seq_write(
        seq_write(p, used, bytes32(payload.len() as int) + payload),
        8,
        bytes16(used + 4 + payload.len()) + bytes16(count + 1),
    )
}

/// Adding a record to a data page that has room for it appends it to the
/// page's records.
pub proof fn lemma_page_with_record(p: Seq<u8>, payload: Seq<u8>)
    requires
        p.len() == 4096,
        page_check(p) is Ok,
        le16(p, 8) + 4 + payload.len() <= 4096,
    ensures
        page_with_record(p, payload).len() == 4096,
        page_check(page_with_record(p, payload)) == Ok::<Seq<Seq<u8>>, StorageError>(
            page_check(p)->Ok_0.push(payload),
        ),
{
    let used = le16(p, 8);
    let count = le16(p, 10);
    let len = payload.len() as int;
    let recs = page_check(p)->Ok_0;
    let mid = seq_write(p, used, bytes32(len) + payload);
    let q = page_with_record(p, payload);
    lemma_bytes32(len);
    lemma_parse_bounds(p, 16, count as nat, used);
    assert(count + 1 < 65536);
    lemma_bytes16(used + 4 + len);
    lemma_bytes16(count + 1);
    assert(q.len() == 4096);
    assert(q.subrange(0, 4) =~= p.subrange(0, 4));
    assert(le16(q, 4) == le16(p, 4));
    assert(le16(q, 6) == le16(p, 6));
    assert(le16(q, 8) == le16(bytes16(used + 4 + len), 0));
    assert(le16(q, 10) == le16(bytes16(count + 1), 0));
    assert forall|k: int| 16 <= k < used implies #[trigger] q[k] == p[k] by {}
    lemma_parse_frame(p, q, 16, count as nat, used);
    lemma_parse_mono(q, 16, count as nat, used, used + 4 + len);
    assert(le32(q, used) == le32(bytes32(len), 0));
    assert(q.subrange(used + 4, used + 4 + len) =~= payload);
    let end = used + 4 + len;
    assert(parse_records(q, end, 0, end) == Some((Seq::<Seq<u8>>::empty(), end)));
    assert(parse_records(q, used, 1, end) == Some((seq![payload], end)));
    lemma_parse_split(q, 16, count as nat, 1, end);
    assert(recs + seq![payload] =~= recs.push(payload));
    assert((count + 1) as nat == (count as nat + 1) as nat);
}

/// A store file with an empty data page added keeps its records.
pub proof fn lemma_add_page(image: Seq<u8>)
    requires
        file_check(image) is Ok,
        image.len() + 4096 <= usize::MAX,
    ensures
        ({
            let pc = header_page_count(image);
            let image2 = seq_write(image + empty_page(), 16, bytes64(pc + 1));
            &&& image2.len() == image.len() + 4096
            &&& header_page_count(image2) == pc + 1
            &&& page_of(image2, pc) == empty_page()
            &&& file_check(image2) == file_check(image)
        }),
{
    let pc = header_page_count(image);
    lemma_empty_page();
    let ext = image + empty_page();
    let image2 = seq_write(ext, 16, bytes64(pc + 1));
    lemma_bytes64(pc + 1);
    assert(image.len() == pc * 4096);
    assert(image2.len() == image.len() + 4096);
    assert(le64(image2, 16) == le64(bytes64(pc + 1), 0));
    assert(page_of(image2, 0).subrange(0, 8) =~= page_of(image, 0).subrange(0, 8));
    assert(le16(page_of(image2, 0), 8) == le16(page_of(image, 0), 8));
    assert(le16(page_of(image2, 0), 10) == le16(page_of(image, 0), 10));
    assert(le32(page_of(image2, 0), 12) == le32(page_of(image, 0), 12));
    assert forall|i: int| 1 <= i < pc implies page_of(image2, i) == page_of(image, i) by {
        assert(page_of(image2, i) =~= page_of(image, i));
    }
    lemma_pages_frame(image2, image, 1, pc);
    assert(page_of(image2, pc) =~= empty_page());
    lemma_pages_split(image2, 1, pc, pc + 1);
    lemma_pages_one(image2, pc);
    let r = pages_check(image, 1, pc)->Ok_0;
    assert(r + Seq::<Seq<u8>>::empty() =~= r);
}

/// Replacing the last data page of a store file by the same page with one
/// more record appends that record to the file's records.
pub proof fn lemma_write_last_page(image: Seq<u8>, payload: Seq<u8>)
    requires
        file_check(image) is Ok,
        header_page_count(image) >= 2,
        le16(page_of(image, header_page_count(image) - 1), 8) + 4 + payload.len() <= 4096,
    ensures
        ({
            let last = header_page_count(image) - 1;
            let image2 = seq_write(image, last * 4096, page_with_record(page_of(image, last), payload));
            &&& image2.len() == image.len()
            &&& header_page_count(image2) == header_page_count(image)
            &&& file_check(image2) == Ok::<Seq<Seq<u8>>, StorageError>(file_check(image)->Ok_0.push(payload))
        }),
{
    let pc = header_page_count(image);
    let last = pc - 1;
    let p = page_of(image, last);
    lemma_pages_split(image, 1, last, pc);
    lemma_pages_one(image, last);
    assert(page_check(p) is Ok);
    lemma_page_with_record(p, payload);
    let q = page_with_record(p, payload);
    let image2 = seq_write(image, last * 4096, q);
    assert(image2.len() == image.len());
    assert(page_of(image2, 0) =~= page_of(image, 0));
    assert(le64(image2, 16) == le64(image, 16));
    assert forall|i: int| 1 <= i < last implies page_of(image2, i) == page_of(image, i) by {
        assert(page_of(image2, i) =~= page_of(image, i));
    }
    lemma_pages_frame(image2, image, 1, last);
    assert(page_of(image2, last) =~= q);
    lemma_pages_split(image2, 1, last, pc);
    lemma_pages_one(image2, last);
    let a = pages_check(image, 1, last)->Ok_0;
    let recs = page_check(p)->Ok_0;
    assert(a + recs.push(payload) =~= (a + recs).push(payload));
}


/// Writes the page count into the header page.
fn write_page_count(image: &mut Vec<u8>, count: u64)
    requires
        old(image)@.len() >= 4096,
    ensures
        final(image)@ == seq_write(old(image)@, 16, bytes64(count as int)),
{
    let mut field: Vec<u8> = Vec::new();
    push_le64(&mut field, count);
    assert(field@ =~= bytes64(count as int));
    write_bytes(image, FILE_HEADER_PAGE_COUNT_OFFSET, field.as_slice());
}

/// Adds an empty data page at the end of a valid store file.
fn add_empty_page(image: &mut Vec<u8>)
    requires
        file_check(old(image)@) is Ok,
        old(image)@.len() + 4096 <= usize::MAX,
    ensures
        final(image)@ == seq_write(
            old(image)@ + empty_page(),
            16,
            bytes64(header_page_count(old(image)@) + 1),
        ),
        final(image)@.len() == old(image)@.len() + 4096,
        header_page_count(final(image)@) == header_page_count(old(image)@) + 1,
        page_of(final(image)@, header_page_count(old(image)@)) == empty_page(),
        file_check(final(image)@) == file_check(old(image)@),
{
    proof {
        lemma_add_page(old(image)@);
    }
    let count = read_page_count(image.as_slice());
    push_empty_page(image);
    write_page_count(image, count + 1);
}

/// Writing the new record and then the updated page fields is writing the
/// page with the record added.
proof fn lemma_two_writes(image: Seq<u8>, base: int, payload: Seq<u8>)
    requires
        0 <= base,
        base + 4096 <= image.len(),
        16 <= le16(page_at(image, base), 8),
        le16(page_at(image, base), 8) + 4 + payload.len() <= 4096,
    ensures
        ({
            let p = page_at(image, base);
            let used = le16(p, 8);
            let count = le16(p, 10);
            seq_write(
                seq_write(image, base + used, bytes32(payload.len() as int) + payload),
                base + 8,
                bytes16(used + 4 + payload.len()) + bytes16(count + 1),
            ) =~= seq_write(image, base, page_with_record(p, payload))
        }),
{
    let p = page_at(image, base);
    let used = le16(p, 8);
    let count = le16(p, 10);
    let x = bytes32(payload.len() as int) + payload;
    let y = bytes16(used + 4 + payload.len()) + bytes16(count + 1);
    let lhs = seq_write(seq_write(image, base + used, x), base + 8, y);
    let q = page_with_record(p, payload);
    let rhs = seq_write(image, base, q);
    assert(lhs.len() == rhs.len());
    assert forall|k: int| 0 <= k < lhs.len() implies lhs[k] == rhs[k] by {
        if base <= k < base + 4096 {
            assert(rhs[k] == q[k - base]);
        }
    }
}

/// Makes sure the last data page has room for a record of `len` bytes;
/// returns the start of that page and the bytes it uses.
fn make_room(image: &mut Vec<u8>, len: usize) -> (r: (usize, usize))
    requires
        file_check(old(image)@) is Ok,
        len <= MAX_RECORD_PAYLOAD_LEN,
        old(image)@.len() + 8192 <= usize::MAX,
    ensures
        file_check(final(image)@) == file_check(old(image)@),
        final(image)@.len() <= old(image)@.len() + 8192,
        header_page_count(final(image)@) >= 2,
        r.0 == (header_page_count(final(image)@) - 1) * 4096,
        r.1 == le16(page_of(final(image)@, header_page_count(final(image)@) - 1), 8),
        16 <= r.1,
        r.1 + 4 + len <= 4096,
{
    let mut count = read_page_count(image.as_slice());
    if count == 1 {
        add_empty_page(image);
        count = 2;
    }
    let mut base = ((count - 1) as usize) * PAGE_SIZE;
    assert(page_at(image@, base as int) == page_of(image@, count - 1));
    let mut used = read_le16(image.as_slice(), base + DATA_PAGE_USED_OFFSET) as usize;
    proof {
        let last = count - 1;
        lemma_pages_split(image@, 1, last as int, count as int);
        lemma_pages_one(image@, last as int);
    }
    if used + 4 + len > PAGE_SIZE {
        add_empty_page(image);
        count = count + 1;
        base = ((count - 1) as usize) * PAGE_SIZE;
        proof {
            lemma_empty_page();
        }
        used = read_le16(image.as_slice(), base + DATA_PAGE_USED_OFFSET) as usize;
        assert(page_at(image@, base as int) == page_of(image@, count - 1));
    }
    (base, used)
}

/// The record count of the last data page of a valid store file is small.
proof fn lemma_last_page_bounds(image: Seq<u8>)
    requires
        file_check(image) is Ok,
        header_page_count(image) >= 2,
    ensures
        le16(page_of(image, header_page_count(image) - 1), 10) < 1024,
{
    let pc = header_page_count(image);
    let last = pc - 1;
    let p = page_of(image, last);
    lemma_pages_split(image, 1, last, pc);
    lemma_pages_one(image, last);
    lemma_parse_bounds(p, 16, le16(p, 10) as nat, le16(p, 8));
}

/// Appends `payload` as the last record of a valid store file.
#[verifier::rlimit(40)]
pub fn append_record_to_image(image: &mut Vec<u8>, payload: &[u8])
    requires
        file_check(old(image)@) is Ok,
        payload@.len() <= MAX_RECORD_PAYLOAD_LEN,
        old(image)@.len() + 8192 <= usize::MAX,
    ensures
        file_check(final(image)@) == Ok::<Seq<Seq<u8>>, StorageError>(
            file_check(old(image)@)->Ok_0.push(payload@),
        ),
        final(image)@.len() <= old(image)@.len() + 8192,
{
    let len = payload.len();
    let (base, used) = make_room(image, len);
    let ghost before = image@;
    let ghost last = header_page_count(before) - 1;
    let ghost p = page_of(before, last);
    assert(page_at(before, base as int) == p);
    let record_count = read_le16(image.as_slice(), base + DATA_PAGE_RECORD_COUNT_OFFSET);
    proof {
        lemma_last_page_bounds(before);
        lemma_write_last_page(before, payload@);
        lemma_two_writes(before, base as int, payload@);
    }
    let mut record: Vec<u8> = Vec::new();
    push_le32(&mut record, len as u32);
    push_all(&mut record, payload);
    assert(record@ =~= bytes32(len as int) + payload@);
    write_bytes(image, base + used, record.as_slice());
    let mut fields: Vec<u8> = Vec::new();
    push_le16(&mut fields, (used + 4 + len) as u16);
    push_le16(&mut fields, record_count + 1);
    assert(fields@ =~= bytes16(used + 4 + len) + bytes16(record_count + 1));
    write_bytes(image, base + DATA_PAGE_USED_OFFSET, fields.as_slice());
}

} // verus!
