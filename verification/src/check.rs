//! `db check`: whether a database's files can be read and describe a
//! consistent database, or the invariant they break.
use crate::page::{StorageError, file_check, rec_view};
use crate::replay::{label_text, replay_spec};
use crate::sql::validate_records_for_check;
use crate::storage::{read_committed_wal_records_for_check, read_records_for_check, validate_wal_for_check};
use crate::wal::wal_scan;
use vstd::prelude::*;
use vstd::string::*;

verus! {

/// What `db check` prints when the database passes.
pub const SUCCESS_OUTPUT: &'static str = "ok: db check passed\n";

/// Why a check failed: the file could not be read, or it breaks the named
/// invariant.
#[derive(Debug, Clone, PartialEq, Eq)]
pub enum CheckError {
    OpenRead { path: String },
    Invariant { label: &'static str },
}

/// The model of a failed check.
pub enum CheckFailure {
    OpenRead,
    Invariant(Seq<char>),
}

/// The committed log records that apply to a store file holding `count`
/// records.
pub open spec fn wal_part(wal: Option<Seq<u8>>, count: int) -> Result<Seq<Seq<u8>>, StorageError> {
    match wal {
        None => Ok(Seq::empty()),
        Some(w) => match wal_scan(w, 0, count) {
            Err(e) => Err(e),
            Ok((found, _)) => Ok(found),
        },
    }
}

/// A storage error while reading: an I/O failure means the file could not
/// be read; any other means the bytes break `label`.
pub open spec fn read_failure(e: StorageError, label: Seq<char>) -> CheckFailure {
    if e == StorageError::Io {
        CheckFailure::OpenRead
    } else {
        CheckFailure::Invariant(label)
    }
}

/// The check of a store file (`None`: no regular file there) and its log:
/// the file's records must be readable, the committed log records must
/// apply, and together they must describe a database.
pub open spec fn check_spec(image: Option<Seq<u8>>, wal: Option<Seq<u8>>) -> Result<(), CheckFailure> {
    match image {
        None => Err(CheckFailure::OpenRead),
        Some(img) => match file_check(img) {
            Err(e) => Err(read_failure(e, "storage record readability"@)),
            Ok(records) => match wal_part(wal, records.len() as int) {
                Err(e) => Err(read_failure(e, "wal replay consistency"@)),
                Ok(found) => match replay_spec(records + found) {
                    Err(l) => Err(CheckFailure::Invariant(label_text(l))),
                    Ok(_) => Ok(()),
                },
            },
        },
    }
}

fn read_error(e: StorageError, path: &String, label: &'static str) -> (r: CheckError)
    ensures
        match read_failure(e, label@) {
            CheckFailure::OpenRead => r matches CheckError::OpenRead { path: p } && p@ == path@,
            CheckFailure::Invariant(l) => r matches CheckError::Invariant { label: x } && x@ == l,
        },
{
    match e {
        StorageError::Io => CheckError::OpenRead { path: path.clone() },
        _ => CheckError::Invariant { label },
    }
}

/// Checks the bytes of a store file (`None`: the path is
/// not a regular file or cannot be read) and of its log (`None`: no log).
pub fn check_database(path: &String, image: Option<&[u8]>, wal: Option<&[u8]>) -> (r: Result<(), CheckError>)
    ensures
        match check_spec(
            match image {
                Some(i) => Some(i@),
                None => None,
            },
            match wal {
                Some(w) => Some(w@),
                None => None,
            },
        ) {
            Ok(()) => r is Ok,
            Err(CheckFailure::OpenRead) => r matches Err(CheckError::OpenRead { path: p }) && p@ == path@,
            Err(CheckFailure::Invariant(l)) => r matches Err(CheckError::Invariant { label }) && label@ == l,
        },
{
    let img = match image {
        None => {
            return Err(CheckError::OpenRead { path: path.clone() });
        },
        Some(i) => i,
    };
    let snapshot = match read_records_for_check(Some(img)) {
        Ok(s) => s,
        Err(e) => {
            return Err(read_error(e, path, "storage record readability"));
        },
    };
    let mut found = match read_committed_wal_records_for_check(wal, snapshot.record_count) {
        Ok(f) => f,
        Err(e) => {
            return Err(read_error(e, path, "wal replay consistency"));
        },
    };
    let count = snapshot.record_count;
    let mut records = snapshot.records;
    let ghost a = rec_view(records@);
    let ghost b = rec_view(found@);
    records.append(&mut found);
    assert(rec_view(records@) =~= a + b);
    match validate_records_for_check(records) {
        Ok(()) => {},
        Err(label) => {
            return Err(CheckError::Invariant { label });
        },
    }
    match validate_wal_for_check(wal, count) {
        Ok(()) => Ok(()),
        Err(e) => Err(read_error(e, path, "wal replay consistency")),
    }
}

/// What `db check` writes to standard error for a failed check.
pub open spec fn check_report_spec(e: CheckError) -> Seq<char> {
    match e {
        CheckError::OpenRead { path } => "error: could not open or read database path: "@ + path@ + "\n"@,
        CheckError::Invariant { label } => "error: db check failed: "@ + label@ + "\n"@,
    }
}

impl CheckError {
    /// What `db check` writes to standard error for this failure; it then
    /// exits with status 1.
    pub fn report(&self) -> (r: String)
        ensures
            r@ == check_report_spec(*self),
    {
        match self {
            CheckError::OpenRead { path } => {
                let mut out = String::from_str("error: could not open or read database path: ");
                out.append(path.as_str());
                out.append("\n");
                out
            },
            CheckError::Invariant { label } => {
                let mut out = String::from_str("error: db check failed: ");
                out.append(label);
                out.append("\n");
                out
            },
        }
    }
}

} // verus!
