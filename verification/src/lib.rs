//! CDoc: a persistent document store whose paths, indices and records are
//! byte encodings with verified contracts.
use crate::path::PathError;
use vstd::prelude::*;

mod be;
pub mod db;
pub mod bytes;
mod checksum;
pub mod hlc;
pub mod mutation;
pub mod path;
pub mod pid;
pub mod query;
pub mod sst;
mod text;
pub mod varint;
pub mod wal;

pub use db::DbOptions;
pub use mutation::{Mutation, Op, Segment};
pub use path::lseq::FractionalIndex;
pub use pid::PID;
pub use query::{Filter, Query, QueryError, Select};

verus! {

/// The library's errors.
#[derive(Debug, Clone, PartialEq, Eq)]
pub enum Error {
    /// An invalid path.
    Path(PathError),
    /// Bytes too short for the fixed-size structure read from them.
    ZeroCopy,
    /// A CBOR value could not be serialized.
    Cbor(String),
    /// A query could not be parsed.
    Query(QueryError),
    /// Stored bytes are damaged.
    Corruption(String),
}

pub type Result<T, E = Error> = core::result::Result<T, E>;

} // verus!
