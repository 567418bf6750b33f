//! Decode errors. Every failure aborts the whole decode tree of the current
//! call and is returned to the top-level caller unchanged.

use vstd::prelude::*;
use crate::event::{Ident, IdentV};

verus! {

/// An error of the collaborator context itself: the event stream ended inside
/// a value, or presented an event of a kind the current strategy cannot take.
#[derive(Clone, Copy, PartialEq, Eq, Structural, Debug)]
pub enum FormatError {
    EndOfInput,
    UnexpectedEvent,
}

/// A decode error.
#[derive(Clone, PartialEq, Eq, Debug)]
pub enum Error {
    /// A fixed-arity shape had the wrong number of elements, or a sequence's
    /// seed supply ran out before the input did. The first number is how many
    /// elements were encountered, the second how many the strategy could have
    /// taken: the declared arity for tuples and records, the exact element
    /// count for a counted sequence, and one less than the number of supplied
    /// seeds when the seed stream of a sequence was exhausted.
    InvalidLength(u64, u64),
    /// A union discriminant matched no declared variant: the offending token
    /// together with the declared variant names. Always fatal.
    UnknownVariant(Ident, Vec<String>),
    /// A record key was seen twice in associative representation.
    DuplicateField(String),
    /// A required record field never appeared in associative representation.
    MissingField(String),
    /// An error of the underlying format, propagated verbatim.
    Collaborator(FormatError),
}

/// The mathematical model of an [`Error`].
pub enum ErrorV {
    InvalidLength(u64, u64),
    UnknownVariant(IdentV, Seq<Seq<char>>),
    DuplicateField(Seq<char>),
    MissingField(Seq<char>),
    Collaborator(FormatError),
}

impl DeepView for Error {
    type V = ErrorV;

    open spec fn deep_view(&self) -> ErrorV {
        match self {
            Error::InvalidLength(got, want) => ErrorV::InvalidLength(*got, *want),
            Error::UnknownVariant(id, names) => ErrorV::UnknownVariant(
                id.deep_view(),
                names.deep_view(),
            ),
            Error::DuplicateField(n) => ErrorV::DuplicateField(n@),
            Error::MissingField(n) => ErrorV::MissingField(n@),
            Error::Collaborator(f) => ErrorV::Collaborator(*f),
        }
    }
}

} // verus!
