//! The errors that the engine reports.

use vstd::prelude::*;

verus! {

/// The error type of `std::io`, carried through unchanged.
#[verifier::external_type_specification]
#[verifier::external_body]
pub struct ExIoError(std::io::Error);

/// Everything that can go wrong in the engine.
#[derive(Debug)]
pub enum Error {
    /// No database exists at the given place and none may be created.
    DatabaseNotFound,
    /// Neither meta record is usable: the file is not a database, or is
    /// damaged beyond recovery.
    DatabaseInvalid,
    /// The file was written by another version of the format.
    DatabaseVersionMismatch,
    /// A meta record's checksum does not match its fields.
    ChecksumError,
    /// The database has been closed.
    DatabaseNotOpen,
    /// The database is already open.
    DatabaseOpen,
    /// A read-only transaction was asked to change something.
    TransactionReadOnly,
    /// A write transaction is already in progress.
    TxInProgress,
    /// Every slot of the reader table is taken.
    ReaderTableFull,
    /// A value is too large to encode.
    ValueTooLarge,
    /// An access reaches past the end of the mapped image.
    PageOutOfBounds,
    /// The transaction has no bucket of that name.
    BucketNotFound,
    /// An error of the file system, passed on as it came.
    Io(std::io::Error),
}


impl Error {
    /// What the error says, for every error but `Io`, whose words are those
    /// of the file system.
    pub open spec fn text(self) -> Seq<char> {
        match self {
            Error::DatabaseNotFound => "No valid database found at the given path."@,
            Error::DatabaseInvalid => "Invalid database: both meta pages are invalid. This typically occurs when the file is not a database."@,
            Error::DatabaseVersionMismatch => "Version mismatch: the data file was created with a different version of the format."@,
            Error::ChecksumError => "Checksum error: a meta page checksum does not match."@,
            Error::DatabaseNotOpen => "The database is not open."@,
            Error::DatabaseOpen => "The database is already open."@,
            Error::TransactionReadOnly => "The transaction is read-only."@,
            Error::TxInProgress => "A write transaction is already in progress."@,
            Error::ReaderTableFull => "The reader table is full."@,
            Error::ValueTooLarge => "Value too large to encode."@,
            Error::PageOutOfBounds => "Page access out of the bounds of the mapped file."@,
            Error::BucketNotFound => "Bucket not found."@,
            Error::Io(_) => Seq::empty(),
        }
    }

    /// The error in words.
    pub fn message(&self) -> (s: String)
        ensures
            !(self is Io) ==> s@ == self.text(),
    {
        match self {
            Error::DatabaseNotFound => "No valid database found at the given path.".to_owned(),
            Error::DatabaseInvalid => "Invalid database: both meta pages are invalid. This typically occurs when the file is not a database.".to_owned(),
            Error::DatabaseVersionMismatch => "Version mismatch: the data file was created with a different version of the format.".to_owned(),
            Error::ChecksumError => "Checksum error: a meta page checksum does not match.".to_owned(),
            Error::DatabaseNotOpen => "The database is not open.".to_owned(),
            Error::DatabaseOpen => "The database is already open.".to_owned(),
            Error::TransactionReadOnly => "The transaction is read-only.".to_owned(),
            Error::TxInProgress => "A write transaction is already in progress.".to_owned(),
            Error::ReaderTableFull => "The reader table is full.".to_owned(),
            Error::ValueTooLarge => "Value too large to encode.".to_owned(),
            Error::PageOutOfBounds => "Page access out of the bounds of the mapped file.".to_owned(),
            Error::BucketNotFound => "Bucket not found.".to_owned(),
            Error::Io(err) => io_error_text(err),
        }
    }
}

/// The words of an error of the file system, as its `Display` impl in `std`
/// gives them. They depend on the operating system, so nothing is claimed of
/// them.
#[verifier::external_body]
fn io_error_text(err: &std::io::Error) -> (s: String) {
    format!("{}", err)
}

impl From<std::io::Error> for Error {
    fn from(err: std::io::Error) -> (r: Error) {
        Error::Io(err)
    }
}

impl vstd::std_specs::convert::FromSpecImpl<std::io::Error> for Error {
    open spec fn obeys_from_spec() -> bool {
        true
    }

    open spec fn from_spec(err: std::io::Error) -> Error {
        Error::Io(err)
    }
}

} // verus!
