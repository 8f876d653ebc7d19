use vstd::prelude::*;

verus! {

/// How much more input a failed read would have needed.
#[derive(Debug, PartialEq, Eq, Clone, Copy)]
pub enum Needed {
    Size(usize),
    Unknown,
}

/// The closed set of failure kinds returned by every fallible primitive
/// of the runtime.
#[derive(Debug, PartialEq, Eq, Clone)]
pub enum KError {
    Incomplete(Needed),
    EmptyIterator,
    Encoding { desc: String },
    MissingInstanceValue,
    MissingRoot,
    MissingParent,
    ReadBitsTooLarge { requested: usize },
    UnexpectedContents { actual: Vec<u8> },
    ValidationNotEqual(String),
    UnknownVariant(i64),
    EncounteredEOF,
    IoError { desc: String },
    CastError,
    UndecidedEndiannessError(String),
}

pub type KResult<T> = Result<T, KError>;

} // verus!
