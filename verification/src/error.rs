//! The failure kinds that every fallible primitive of the runtime returns.

use vstd::prelude::*;
use vstd::std_specs::convert::FromSpecImpl;

verus! {

/// How many more bytes a read would have needed.
#[derive(Debug, PartialEq, Eq, Clone, Copy)]
pub enum Needed {
    Size(usize),
    Unknown,
}

/// A failure of the runtime, tagged by kind.
#[derive(Debug, PartialEq, Eq, Clone)]
pub enum KError {
    /// A read asked for more bytes than remain.
    Incomplete(Needed),
    EmptyIterator,
    /// The text decoder failed, or the encoding label is unknown.
    Encoding { desc: String },
    MissingInstanceValue,
    MissingRoot,
    MissingParent,
    /// A bit read asked for more than 64 bits.
    ReadBitsTooLarge { requested: usize },
    /// A fixed-content check failed; `actual` holds the bytes that were read.
    UnexpectedContents { actual: Vec<u8> },
    ValidationNotEqual(String),
    UnknownVariant(i64),
    /// A terminator scan ran off the end of a stream that had to hold one.
    EncounteredEOF,
    /// The underlying byte source failed.
    IoError { desc: String },
    CastError,
    UndecidedEndiannessError(String),
}

pub type KResult<T> = Result<T, KError>;

/// `std::io::Error`, carried as a value of which nothing is known but what
/// `to_string` makes of it.
#[verifier::external_type_specification]
#[verifier::external_body]
pub struct ExIoError(std::io::Error);

/// The conversion keeps to no specification function: a `String` cannot be
/// built in one. What comes out is stated on `from` itself.
impl FromSpecImpl<std::io::Error> for KError {
    open spec fn obeys_from_spec() -> bool {
        false
    }

    open spec fn from_spec(err: std::io::Error) -> KError {
        KError::IoError { desc: arbitrary() }
    }
}

impl From<std::io::Error> for KError {
    /// Captures the failure's text, as `to_string` gives it, under the
    /// `IoError` kind.
    fn from(err: std::io::Error) -> (e: KError)
        ensures
            e matches KError::IoError { desc }
                && vstd::string::to_string_from_display_ensures::<std::io::Error>(&err, desc),
    {
        KError::IoError { desc: err.to_string() }
    }
}

} // verus!
