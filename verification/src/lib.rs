//! Dependent decoding combinators over an abstract event-stream context.
//!
//! The decoding strategy ("seed") for a later part of the input may depend on
//! the value decoded from an earlier part: a length decoded first directs how
//! many elements are read next, a record's field strategies are derived from a
//! shared base, and a tagged union's discriminant selects which payload
//! strategy runs. Four shapes are covered: dependent two-element tuples,
//! homogeneous sequences of a priori unknown length, records decoded
//! positionally or by out-of-order key, and tagged unions.

pub mod decode;
pub mod encode;
pub mod error;
pub mod event;
pub mod laws;
pub mod seed;
pub mod semantics;
pub mod value;
