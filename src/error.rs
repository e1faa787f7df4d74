use vstd::prelude::*;

verus! {

/// Why bytes that should hold a record could not be read as one.
#[derive(Debug, Clone, Copy, PartialEq, Eq)]
pub enum DecodeError {
    /// The bytes ended inside the record.
    UnexpectedEof,
    /// A tag, a flag, a name or a count held a value that no record has.
    InvalidData,
}

/// Why the table of contents could not be loaded.
///
/// See [`ErrorKind::TocEntryNotFound`].
#[derive(Debug, Clone, PartialEq, Eq)]
pub enum TocEntryNotFoundReason {
    /// The stored table offset is at or past the end of the file.
    ///
    /// Holds the table offset and the length of the file.
    TocOffsetPastEOF(u128, u128),
    /// The bytes at the table offset are not a table of contents.
    CouldNotDeserialiseToc(DecodeError),
}

/// The kinds of failure of archive operations.
#[derive(Debug, Clone, PartialEq, Eq)]
pub enum ErrorKind {
    /// A record could not be decoded.
    Decode(DecodeError),
    /// The first sixteen bytes are not the magic number; holds what was found.
    BadMagicNumber(u128),
    /// The table of contents could not be loaded; holds the reason.
    TocEntryNotFound(TocEntryNotFoundReason),
    /// A name holds a parent-directory component; holds the name.
    UnsafePath(String),
    /// A name to be appended is already in the table; holds the name.
    PathConflict(String),
    /// A name looked up is not in the table; holds the name.
    NotFound(String),
    /// Bytes follow the table of contents; holds where the table ends and the
    /// length of the file.
    DataPastToc(u128, u128),
}

/// An archive error: its kind and a message.
#[derive(Debug, Clone, PartialEq, Eq)]
pub struct Error {
    pub kind: ErrorKind,
    pub error: String,
}

impl Error {
    pub fn new(kind: ErrorKind, error: String) -> (r: Self)
        ensures
            r.kind == kind,
            r.error@ == error@,
    {
        Self { kind, error }
    }

    /// The kind of this error.
    pub fn kind(&self) -> (r: &ErrorKind)
        ensures
            *r == self.kind,
    {
        &self.kind
    }

    /// The message of this error.
    pub fn message(&self) -> (r: &str)
        ensures
            r@ == self.error@,
    {
        self.error.as_str()
    }
}

/// `k` is `UnsafePath` for the name `name`.
pub open spec fn is_unsafe_path(k: ErrorKind, name: Seq<char>) -> bool {
    k matches ErrorKind::UnsafePath(n) && n@ == name
}

/// `k` is `PathConflict` for the name `name`.
pub open spec fn is_path_conflict(k: ErrorKind, name: Seq<char>) -> bool {
    k matches ErrorKind::PathConflict(n) && n@ == name
}

/// `k` is `NotFound` for the name `name`.
pub open spec fn is_not_found(k: ErrorKind, name: Seq<char>) -> bool {
    k matches ErrorKind::NotFound(n) && n@ == name
}

/// An error of the given kind with a fixed message.
pub(crate) fn error_of(kind: ErrorKind, message: &str) -> (r: Error)
    ensures
        r.kind == kind,
{
    Error::new(kind, message.to_string())
}

/// The result type of archive operations.
pub type Result<T> = core::result::Result<T, Error>;

} // verus!
