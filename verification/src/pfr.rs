//! The first engine: positional postings and bit-set proximity scoring.
use vstd::prelude::*;

pub mod bitset;
pub mod compression;
pub mod fuzzy_search;
pub mod simd_search;
pub mod indexer;
pub mod index_file;
pub mod searcher;

verus! {

/// Why loading an index or answering a query failed.
#[derive(Debug)]
pub enum PfrError {
    /// Reading the index file failed.
    Io(std::io::Error),
    /// The index file is damaged.
    InvalidIndex,
    /// The query holds no term.
    EmptyQuery,
}

impl From<std::io::Error> for PfrError {
    fn from(err: std::io::Error) -> (r: Self) {
        PfrError::Io(err)
    }
}

impl vstd::std_specs::convert::FromSpecImpl<std::io::Error> for PfrError {
    open spec fn obeys_from_spec() -> bool {
        true
    }

    open spec fn from_spec(err: std::io::Error) -> Self {
        PfrError::Io(err)
    }
}

} // verus!
