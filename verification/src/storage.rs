//! A record store kept as the bytes of its file and of its write-ahead log.
//!
//! Every append first adds a committed frame to the log and then the record
//! to the file; opening a store replays the committed frames that the file
//! does not hold yet and cuts an incomplete frame off the end of the log.
//! The caller reads the two files into a store and writes them back.
use crate::page::{
    append_record_to_image, fresh_file_image, fresh_image, file_check, lemma_fresh_image,
    read_records as read_image_records, rec_view, validate_file, StorageError, MAX_RECORD_PAYLOAD_LEN,
};
use crate::bytes::{copy_range, push_all};
use crate::page::read_records as read_file_records;
use crate::wal::{
    build_frame, count_frames, count_wal_frames, frame_bytes, lemma_count_frames_append,
    lemma_frame_fields, lemma_scan_bounds, lemma_scan_prefix, lemma_scan_replayed, lemma_scan_skip_all, prepend_scan,
    scan_wal, wal_scan,
};
use vstd::prelude::*;

verus! {

/// The records a store opened from these files holds, or why it cannot be
/// opened: the file's records followed by the committed log frames that
/// apply to it in turn.
pub open spec fn open_result(image: Option<Seq<u8>>, wal: Option<Seq<u8>>) -> Result<
    Seq<Seq<u8>>,
    StorageError,
> {
    let img = match image {
        Some(i) => i,
        None => fresh_image(),
    };
    match file_check(img) {
        Err(e) => Err(e),
        Ok(records) => match wal {
            None => Ok(records),
            Some(w) => match wal_scan(w, 0, records.len() as int) {
                Err(e) => Err(e),
                Ok((applied, _)) => Ok(records + applied),
            },
        },
    }
}

/// The log that opening keeps: cut before an incomplete last frame.
pub open spec fn opened_wal(image: Option<Seq<u8>>, wal: Option<Seq<u8>>) -> Option<Seq<u8>> {
    let img = match image {
        Some(i) => i,
        None => fresh_image(),
    };
    match wal {
        None => None,
        Some(w) => Some(w.subrange(0, wal_scan(w, 0, file_check(img)->Ok_0.len() as int)->Ok_0.1)),
    }
}

/// A store: the bytes of its file and of its log, if there is one.
pub struct PageStore {
    image: Vec<u8>,
    wal: Option<Vec<u8>>,
    record_count: u64,
    wal_frames: u64,
}

/// What the check reads from a store file.
pub struct CheckStorageSnapshot {
    pub records: Vec<Vec<u8>>,
    pub record_count: u64,
}

impl PageStore {
    /// The records the store holds, in order.
    pub closed spec fn records(&self) -> Seq<Seq<u8>> {
        file_check(self.image@)->Ok_0
    }

    /// The bytes of the store file.
    pub closed spec fn file_view(&self) -> Seq<u8> {
        self.image@
    }

    /// The bytes of the log, if there is one.
    pub closed spec fn wal_view(&self) -> Option<Seq<u8>> {
        match self.wal {
            Some(w) => Some(w@),
            None => None,
        }
    }

    /// The store file is well formed, the counters match it, and every
    /// committed frame of the log is already in the file.
    pub closed spec fn wf(&self) -> bool {
        &&& file_check(self.image@) is Ok
        &&& self.record_count == self.records().len()
        &&& match self.wal {
            None => self.wal_frames == 0,
            Some(w) => {
                &&& wal_scan(w@, 0, self.record_count as int) == Ok::<
                    (Seq<Seq<u8>>, int),
                    StorageError,
                >((Seq::empty(), w@.len() as int))
                &&& count_frames(w@, 0) == (self.wal_frames as int, w@.len() as int)
            },
        }
    }

    /// Opens a store from the bytes of its file (`None`: no file yet) and of
    /// its log (`None`: no log), replaying the committed frames that apply.
    pub fn open(image: Option<Vec<u8>>, wal: Option<Vec<u8>>) -> (r: Result<PageStore, StorageError>)
        requires
            (match image {
                Some(i) => i@.len(),
                None => 4096,
            }) + 256 * (match wal {
                Some(w) => w@.len(),
                None => 0,
            }) + 8192 <= usize::MAX,
        ensures
            ({
                let iv = match image {
                    Some(i) => Some(i@),
                    None => None,
                };
                let wv = match wal {
                    Some(w) => Some(w@),
                    None => None,
                };
                match open_result(iv, wv) {
                    Ok(records) => r matches Ok(s) && s.wf() && s.records() == records && s.wal_view()
                        == opened_wal(iv, wv) && (iv is Some && records.len() == file_check(iv->Some_0)->Ok_0.len()
                        ==> s.file_view() == iv->Some_0),
                    Err(e) => r matches Err(x) && x == e,
                }
            }),
    {
        let mut img = match image {
            Some(i) => i,
            None => {
                proof {
                    lemma_fresh_image();
                }
                fresh_file_image()
            },
        };
        match validate_file(img.as_slice()) {
            Ok(()) => {},
            Err(e) => {
                return Err(e);
            },
        }
        let count = count_records(img.as_slice());
        match wal {
            None => Ok(PageStore { image: img, wal: None, record_count: count, wal_frames: 0 }),
            Some(w) => open_with_log(img, w, count),
        }
    }
}


/// Adding a committed frame for a record the store is about to hold keeps
/// every committed frame of the log already applied.
#[verifier::spinoff_prover]
#[verifier::rlimit(50)]
proof fn lemma_log_append(w: Seq<u8>, n: int, k: int, id: int, payload: Seq<u8>)
    requires
        wal_scan(w, 0, n) == Ok::<(Seq<Seq<u8>>, int), StorageError>((Seq::empty(), w.len() as int)),
        count_frames(w, 0) == (k, w.len() as int),
        0 <= n < u64::MAX,
        0 <= id <= u64::MAX,
        payload.len() <= 4076,
        w.len() + 36 + payload.len() <= usize::MAX,
    ensures
        ({
            let f = frame_bytes(id, n, payload);
            &&& wal_scan(w + f, 0, n + 1) == Ok::<(Seq<Seq<u8>>, int), StorageError>(
                (Seq::empty(), (w + f).len() as int),
            )
            &&& count_frames(w + f, 0) == (k + 1, (w + f).len() as int)
        }),
{
    let f = frame_bytes(id, n, payload);
    lemma_frame_fields(id, n, payload);
    lemma_scan_skip_all(w, 0, n, n + 1);
    lemma_scan_prefix(w, f, 0, n + 1);
    lemma_count_frames_append(w, f, 0);
    let wf = w + f;
    let off = w.len() as int;
    let flen = f.len() as int;
    assert(wf.subrange(off, off + 8) =~= f.subrange(0, 8));
    assert(crate::bytes::le16(wf, off + 8) == crate::bytes::le16(f, 8));
    assert(crate::bytes::le64(wf, off + 18) == crate::bytes::le64(f, 18));
    assert(wf[off + 26] == f[26]);
    assert(wf[off + 27] == f[27]);
    assert(crate::bytes::le32(wf, off + 28) == crate::bytes::le32(f, 28));
    assert(crate::bytes::le32(wf, off + 32) == crate::bytes::le32(f, 32));
    assert(wf.subrange(off, off + flen) =~= f);
    assert(wal_scan(wf, off + flen, n + 1) == Ok::<(Seq<Seq<u8>>, int), StorageError>(
        (Seq::empty(), off + flen),
    ));
    assert(wal_scan(wf, off, n + 1) == wal_scan(wf, off + flen, n + 1));
    assert(Seq::<Seq<u8>>::empty() + Seq::<Seq<u8>>::empty() =~= Seq::<Seq<u8>>::empty());
}

/// Whether a store whose file holds `data`, whose log is `wal` and which
/// holds `n` records has room for another record of at most one page: the
/// file can grow by two pages, the log by a frame, and the record and frame
/// counters by one.
pub open spec fn room_for_record(data: Seq<u8>, wal: Option<Seq<u8>>, n: int) -> bool {
    &&& data.len() + 8192 <= usize::MAX
    &&& (match wal {
        Some(w) => w.len() as int,
        None => 0,
    }) + 36 + MAX_RECORD_PAYLOAD_LEN <= usize::MAX
    &&& n < u64::MAX
    &&& (match wal {
        Some(w) => count_frames(w, 0).0,
        None => 0,
    }) < u64::MAX
}

impl PageStore {
    /// A store has room for another record exactly when its file, log and
    /// record count say so.
    pub proof fn lemma_append_fits(&self)
        requires
            self.wf(),
        ensures
            self.append_fits() == room_for_record(self.file_view(), self.wal_view(), self.records().len() as int),
    {
    }

    /// A store counts its records in a `u64`.
    pub proof fn lemma_record_count_fits(&self)
        requires
            self.wf(),
        ensures
            self.records().len() <= u64::MAX,
    {
    }

    /// The log of a store is made of whole frames, as many as it counts.
    pub proof fn lemma_wal_frames(&self)
        requires
            self.wf(),
        ensures
            match self.wal_view() {
                Some(w) => count_frames(w, 0) == (self.frame_count(), w.len() as int),
                None => self.frame_count() == 0,
            },
            self.frame_count() <= u64::MAX,
    {
    }

    /// The files of a store hold its records: the store file all of them,
    /// and the log only frames already in the file.
    pub proof fn lemma_files_settled(&self)
        requires
            self.wf(),
        ensures
            file_check(self.file_view()) == Ok::<Seq<Seq<u8>>, StorageError>(self.records()),
            match self.wal_view() {
                Some(w) => wal_scan(w, 0, self.records().len() as int) == Ok::<(Seq<Seq<u8>>, int), StorageError>(
                    (Seq::empty(), w.len() as int),
                ),
                None => true,
            },
    {
    }

    /// The number of frames in the log.
    pub closed spec fn frame_count(&self) -> int {
        self.wal_frames as int
    }

    /// Whether another record of at most one page can still be added
    /// within the limits of the machine's address space and counters.
    pub closed spec fn append_fits(&self) -> bool {
        &&& self.image@.len() + 8192 <= usize::MAX
        &&& (match self.wal {
            Some(w) => w@.len(),
            None => 0,
        }) + 36 + MAX_RECORD_PAYLOAD_LEN <= usize::MAX
        &&& self.record_count < u64::MAX
        &&& self.wal_frames < u64::MAX
    }

    /// Adds `payload` as the last record: first as a committed frame of the
    /// log, then to the file.
    pub fn append_record(&mut self, payload: &[u8]) -> (r: Result<(), StorageError>)
        requires
            old(self).wf(),
        ensures
            final(self).wf(),
            payload@.len() > MAX_RECORD_PAYLOAD_LEN ==> r == Err::<(), StorageError>(
                StorageError::RecordTooLarge,
            ),
            payload@.len() <= MAX_RECORD_PAYLOAD_LEN && !old(self).append_fits() ==> r == Err::<
                (),
                StorageError,
            >(StorageError::Io),
            r is Err ==> *final(self) == *old(self),
            r is Ok <==> payload@.len() <= MAX_RECORD_PAYLOAD_LEN && old(self).append_fits(),
            r is Ok ==> final(self).records() == old(self).records().push(payload@),
            r is Ok ==> final(self).wal_view() == Some(
                match old(self).wal_view() {
                    Some(w) => w,
                    None => Seq::<u8>::empty(),
                } + frame_bytes(old(self).frame_count() + 1, old(self).records().len() as int, payload@),
            ),
    {
        if payload.len() > MAX_RECORD_PAYLOAD_LEN {
            return Err(StorageError::RecordTooLarge);
        }
        let wal_len = match &self.wal {
            Some(w) => w.len(),
            None => 0,
        };
        if self.image.len() > usize::MAX - 8192 || wal_len > usize::MAX - 36 - MAX_RECORD_PAYLOAD_LEN
            || self.record_count == u64::MAX || self.wal_frames == u64::MAX {
            return Err(StorageError::Io);
        }
        let frame = build_frame(self.wal_frames + 1, self.record_count, payload);
        let ghost old_wal = match self.wal_view() {
            Some(w) => w,
            None => Seq::<u8>::empty(),
        };
        proof {
            if self.wal is None {
                assert(wal_scan(Seq::<u8>::empty(), 0, self.record_count as int) == Ok::<
                    (Seq<Seq<u8>>, int),
                    StorageError,
                >((Seq::empty(), 0)));
            }
            lemma_log_append(
                old_wal,
                self.record_count as int,
                self.wal_frames as int,
                self.wal_frames + 1,
                payload@,
            );
        }
        let new_wal = match self.wal.take() {
            Some(mut w) => {
                push_all(&mut w, frame.as_slice());
                w
            },
            None => {
                assert(frame@ =~= Seq::<u8>::empty() + frame@);
                frame
            },
        };
        self.wal = Some(new_wal);
        append_record_to_image(&mut self.image, payload);
        self.record_count = self.record_count + 1;
        self.wal_frames = self.wal_frames + 1;
        Ok(())
    }

    /// All records, in order.
    pub fn read_records(&self) -> (r: Result<Vec<Vec<u8>>, StorageError>)
        requires
            self.wf(),
        ensures
            r matches Ok(v) && rec_view(v@) == self.records(),
    {
        read_image_records(self.image.as_slice())
    }

    /// The number of records.
    pub fn record_count(&self) -> (n: u64)
        requires
            self.wf(),
        ensures
            n == self.records().len(),
    {
        self.record_count
    }

    /// The bytes of the store file.
    pub fn file_bytes(&self) -> (r: &Vec<u8>)
        ensures
            r@ == self.file_view(),
    {
        &self.image
    }

    /// The bytes of the log, if there is one.
    pub fn wal_bytes(&self) -> (r: Option<&Vec<u8>>)
        ensures
            match r {
                Some(w) => self.wal_view() == Some(w@),
                None => self.wal_view() is None,
            },
    {
        match &self.wal {
            Some(w) => Some(w),
            None => None,
        }
    }
}

/// Appends each of `applied` to a valid store file.
fn apply_payloads(img: &mut Vec<u8>, applied: &Vec<Vec<u8>>)
    requires
        file_check(old(img)@) is Ok,
        old(img)@.len() + 8192 * applied@.len() + 8192 <= usize::MAX,
        forall|k: int| 0 <= k < applied@.len() ==> #[trigger] applied@[k]@.len() <= 4076,
    ensures
        file_check(final(img)@) == Ok::<Seq<Seq<u8>>, StorageError>(
            file_check(old(img)@)->Ok_0 + rec_view(applied@),
        ),
        applied@.len() == 0 ==> final(img)@ == old(img)@,
{
    let ghost img0 = old(img)@;
    let ghost file_records = file_check(img0)->Ok_0;
    assert(rec_view(applied@).subrange(0, 0) =~= Seq::<Seq<u8>>::empty());
    assert(file_records + Seq::<Seq<u8>>::empty() =~= file_records);
    let mut i: usize = 0;
    while i < applied.len()
        invariant
            0 <= i <= applied@.len(),
            file_check(img@) == Ok::<Seq<Seq<u8>>, StorageError>(
                file_records + rec_view(applied@).subrange(0, i as int),
            ),
            img@.len() <= img0.len() + 8192 * i,
            img0.len() + 8192 * applied@.len() + 8192 <= usize::MAX,
            forall|k: int| 0 <= k < applied@.len() ==> #[trigger] applied@[k]@.len() <= 4076,
            i == 0 ==> img@ == img0,
        decreases applied@.len() - i,
    {
        append_record_to_image(img, applied[i].as_slice());
        i = i + 1;
        proof {
            assert(rec_view(applied@).subrange(0, i as int) =~= rec_view(applied@).subrange(
                0,
                i - 1,
            ).push(applied@[i - 1]@));
        }
    }
    assert(rec_view(applied@).subrange(0, applied@.len() as int) =~= rec_view(applied@));
}

/// Replays the log `w` into the valid store file `img` holding `count`
/// records.
fn open_with_log(img: Vec<u8>, w: Vec<u8>, count: u64) -> (r: Result<PageStore, StorageError>)
    requires
        file_check(img@) is Ok,
        count == file_check(img@)->Ok_0.len(),
        img@.len() + 256 * w@.len() + 8192 <= usize::MAX,
    ensures
        match wal_scan(w@, 0, count as int) {
            Ok((applied, end)) => r matches Ok(s) && s.wf() && s.records() == file_check(img@)->Ok_0
                + applied && s.wal_view() == Some(w@.subrange(0, end)) && (applied.len() == 0 ==> s.file_view()
                == img@),
            Err(e) => r matches Err(x) && x == e,
        },
{
    let mut img = img;
    let (applied, end) = match scan_wal(w.as_slice(), count) {
        Ok(found) => found,
        Err(e) => {
            return Err(e);
        },
    };
    proof {
        lemma_scan_bounds(w@, 0, count as int);
        assert forall|k: int| 0 <= k < applied@.len() implies #[trigger] applied@[k]@.len() <= 4076 by {
            assert(rec_view(applied@)[k] == applied@[k]@);
        }
    }
    apply_payloads(&mut img, &applied);
    let kept = copy_range(w.as_slice(), 0, end);
    let frames = count_wal_frames(kept.as_slice());
    let total = count + applied.len() as u64;
    proof {
        lemma_scan_replayed(w@, 0, count as int, total as int);
    }
    Ok(PageStore { image: img, wal: Some(kept), record_count: total, wal_frames: frames })
}

/// The number of records in a valid store file.
fn count_records(image: &[u8]) -> (n: u64)
    requires
        file_check(image@) is Ok,
    ensures
        n == file_check(image@)->Ok_0.len(),
{
    let records = read_image_records(image);
    match records {
        Ok(v) => v.len() as u64,
        Err(_) => 0,
    }
}

/// Reads the records of a store file for the check; `None`: no file.
pub fn read_records_for_check(image: Option<&[u8]>) -> (r: Result<CheckStorageSnapshot, StorageError>)
    ensures
        match image {
            None => r == Err::<CheckStorageSnapshot, StorageError>(StorageError::Io),
            Some(i) => match file_check(i@) {
                Ok(records) => r matches Ok(snap) && rec_view(snap.records@) == records
                    && snap.record_count == records.len(),
                Err(e) => r matches Err(x) && x == e,
            },
        },
{
    match image {
        None => Err(StorageError::Io),
        Some(i) => {
            let records = read_file_records(i)?;
            let record_count = records.len() as u64;
            Ok(CheckStorageSnapshot { records, record_count })
        },
    }
}

/// The committed log frames that apply, in turn, to a store file holding
/// `durable_record_count` records; `None`: no log.
pub fn read_committed_wal_records_for_check(wal: Option<&[u8]>, durable_record_count: u64) -> (r: Result<
    Vec<Vec<u8>>,
    StorageError,
>)
    ensures
        match wal {
            None => r matches Ok(v) && v@.len() == 0,
            Some(w) => match wal_scan(w@, 0, durable_record_count as int) {
                Ok((found, _)) => r matches Ok(v) && rec_view(v@) == found,
                Err(e) => r matches Err(x) && x == e,
            },
        },
{
    match wal {
        None => Ok(Vec::new()),
        Some(w) => {
            let (found, _) = scan_wal(w, durable_record_count)?;
            Ok(found)
        },
    }
}

/// Checks the log beside a store file holding `durable_record_count`
/// records.
pub fn validate_wal_for_check(wal: Option<&[u8]>, durable_record_count: u64) -> (r: Result<(), StorageError>)
    ensures
        match wal {
            None => r is Ok,
            Some(w) => match wal_scan(w@, 0, durable_record_count as int) {
                Ok(_) => r is Ok,
                Err(e) => r == Err::<(), StorageError>(e),
            },
        },
{
    match read_committed_wal_records_for_check(wal, durable_record_count) {
        Ok(_) => Ok(()),
        Err(e) => Err(e),
    }
}

/// Reopening a store from the files it would write gives back the same
/// records and the same log, and replays nothing.
pub proof fn lemma_reopen_is_identity(s: PageStore)
    requires
        s.wf(),
    ensures
        open_result(Some(s.file_view()), s.wal_view()) == Ok::<Seq<Seq<u8>>, StorageError>(s.records()),
        opened_wal(Some(s.file_view()), s.wal_view()) == s.wal_view(),
{
    match s.wal {
        None => {},
        Some(w) => {
            assert(s.records() + Seq::<Seq<u8>>::empty() =~= s.records());
            assert(w@.subrange(0, w@.len() as int) =~= w@);
        },
    }
}

/// A store opened with no file and no log holds no records.
pub proof fn lemma_open_fresh_is_empty()
    ensures
        open_result(None, None) == Ok::<Seq<Seq<u8>>, StorageError>(Seq::empty()),
{
    lemma_fresh_image();
}

/// The records a store opens with are the records the check reads from
/// the file followed by the committed log records the check reads.
pub proof fn lemma_open_matches_check(image: Seq<u8>, wal: Option<Seq<u8>>)
    requires
        file_check(image) is Ok,
    ensures
        open_result(Some(image), wal) == (match wal {
            None => Ok(file_check(image)->Ok_0),
            Some(w) => match wal_scan(w, 0, file_check(image)->Ok_0.len() as int) {
                Ok((found, _)) => Ok(file_check(image)->Ok_0 + found),
                Err(e) => Err(e),
            },
        }),
{
}

/// Adds a committed log frame for a record without adding the record to
/// the store file, as a crash between the two steps of an append leaves
/// it: the frame's id follows the frames already in the log.
pub fn append_committed_wal_record_for_bench(wal: &mut Option<Vec<u8>>, record_count_before: u64, payload: &[u8]) -> (r: Result<
    (),
    StorageError,
>)
    ensures
        ({
            let w0 = match *old(wal) {
                Some(w) => w@,
                None => Seq::<u8>::empty(),
            };
            if payload@.len() > MAX_RECORD_PAYLOAD_LEN {
                r == Err::<(), StorageError>(StorageError::RecordTooLarge) && *final(wal) == *old(wal)
            } else if w0.len() + 36 + MAX_RECORD_PAYLOAD_LEN > usize::MAX || count_frames(w0, 0).0 >= u64::MAX {
                r == Err::<(), StorageError>(StorageError::Io) && *final(wal) == *old(wal)
            } else {
                r is Ok && (*final(wal) matches Some(w1) && w1@ == w0 + frame_bytes(
                    count_frames(w0, 0).0 + 1,
                    record_count_before as int,
                    payload@,
                ) && (count_frames(w0, 0).1 == w0.len() ==> count_frames(w1@, 0) == (
                    count_frames(w0, 0).0 + 1,
                    w1@.len() as int,
                )))
            }
        }),
{
    let ghost w0 = match wal {
        Some(w) => w@,
        None => Seq::<u8>::empty(),
    };
    if payload.len() > MAX_RECORD_PAYLOAD_LEN {
        return Err(StorageError::RecordTooLarge);
    }
    let len: usize = match wal {
        Some(w) => w.len(),
        None => 0,
    };
    if len > usize::MAX - 36 - MAX_RECORD_PAYLOAD_LEN {
        return Err(StorageError::Io);
    }
    let frames = match wal {
        Some(w) => count_wal_frames(w.as_slice()),
        None => {
            assert(count_frames(Seq::<u8>::empty(), 0).0 == 0);
            0
        },
    };
    if frames == u64::MAX {
        return Err(StorageError::Io);
    }
    let frame = build_frame(frames + 1, record_count_before, payload);
    proof {
        lemma_frame_fields(frames + 1, record_count_before as int, payload@);
        if count_frames(w0, 0).1 == w0.len() {
            lemma_count_frames_append(w0, frame@, 0);
        }
    }
    match wal {
        Some(w) => {
            push_all(w, frame.as_slice());
        },
        None => {
            assert(frame@ =~= Seq::<u8>::empty() + frame@);
            *wal = Some(frame);
        },
    }
    Ok(())
}

} // verus!
