use vstd::prelude::*;
use crate::wire::copy_bytes;

verus! {

/// The token that a scalar decoder expected.
#[derive(Debug, Clone, Copy, PartialEq, Eq, Structural)]
pub enum Expected {
    Boolean,
    Integer,
    Null,
    Union,
}

/// The scanning step that failed.
#[derive(Debug, Clone, Copy, PartialEq, Eq, Structural)]
pub enum ScanKind {
    /// A literal did not match.
    Tag,
    /// A run of non-sentinel bytes was empty.
    IsNot,
    /// A run of digits was empty.
    Digit,
    /// The input ended.
    Eof,
}

/// One low-level scan failure: the input that was left and the step.
#[derive(Debug, Clone)]
pub struct Nom {
    pub input: Vec<u8>,
    pub kind: ScanKind,
}

/// Failures of encoding and decoding.
#[derive(Debug, Clone)]
pub enum Error {
    /// A message from the data model ("missing field", ...).
    Message(String),
    ExpectedArrayStart,
    ExpectedVal,
    ExpectedArrayEnd,
    ExpectedVar,
    ExpectedMapStart,
    ExpectedMapEnd,
    ExpectedMSDP,
    /// Bytes were left after a complete value.
    TrailingBytes,
    /// The input ended where a byte was needed.
    Eof,
    Parse(Expected),
    Nom(Nom),
    /// A stack of scan failures. Wrapping a single failure puts the new one
    /// first; each later failure is pushed at the end.
    MultiNom(Vec<Nom>),
}

impl Error {
    /// An error that carries a message of the data model.
    pub fn custom(msg: String) -> (r: Error)
        ensures
            r == Error::Message(msg),
    {
        Error::Message(msg)
    }

    /// A single scan failure at `input`.
    pub fn from_error_kind(input: &[u8], kind: ScanKind) -> (r: Error)
        ensures
            r matches Error::Nom(n) && n.input@ == input@ && n.kind == kind,
    {
        Error::Nom(Nom { input: copy_bytes(input, 0, input.len()), kind })
    }

    /// Adds a scan failure at `input` to the failures in `other`; an error
    /// that is not a scan failure is replaced by a literal mismatch at `input`.
    pub fn append(input: &[u8], kind: ScanKind, other: Error) -> (r: Error)
        ensures
            match other {
                Error::Nom(inner) => r matches Error::MultiNom(v) && v@.len() == 2
                    && v@[0].input@ == input@ && v@[0].kind == kind && v@[1] == inner,
                Error::MultiNom(old_stack) => r matches Error::MultiNom(v) && v@.len()
                    == old_stack@.len() + 1 && v@.subrange(0, old_stack@.len() as int)
                    == old_stack@ && v@.last().input@ == input@ && v@.last().kind == kind,
                _ => r matches Error::Nom(n) && n.input@ == input@ && n.kind == ScanKind::Tag,
            },
    {
        match other {
            Error::Nom(inner) => {
                let mut v: Vec<Nom> = Vec::new();
                v.push(Nom { input: copy_bytes(input, 0, input.len()), kind });
                v.push(inner);
                Error::MultiNom(v)
            },
            Error::MultiNom(stack) => {
                let mut v = stack;
                v.push(Nom { input: copy_bytes(input, 0, input.len()), kind });
                Error::MultiNom(v)
            },
            _ => Error::Nom(Nom { input: copy_bytes(input, 0, input.len()), kind: ScanKind::Tag }),
        }
    }
}

} // verus!
