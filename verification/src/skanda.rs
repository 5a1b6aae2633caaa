//! The positional engine: indexer, index file, searcher and HTTP routing.
use vstd::prelude::*;

pub mod compression;
pub mod fuzzy_search;
pub mod bktree;
pub mod searcher;
pub mod indexer;
pub mod index_file;
pub mod query;
pub mod query_scan;
pub mod tokens;
pub mod snippet;
pub mod bridge;
pub mod cache;

verus! {

/// `std::io::Error`, carried through as it is.
#[verifier::external_type_specification]
#[verifier::external_body]
pub struct ExIoError(std::io::Error);

/// Why loading an index or answering a query failed.
#[derive(Debug)]
pub enum SkandaError {
    /// Reading the index file failed.
    Io(std::io::Error),
    /// The index file is not one this library wrote, or it is damaged.
    InvalidIndex,
    /// The query holds no term.
    EmptyQuery,
}

impl From<std::io::Error> for SkandaError {
    fn from(err: std::io::Error) -> (r: Self) {
        SkandaError::Io(err)
    }
}

impl vstd::std_specs::convert::FromSpecImpl<std::io::Error> for SkandaError {
    open spec fn obeys_from_spec() -> bool {
        true
    }

    open spec fn from_spec(err: std::io::Error) -> Self {
        SkandaError::Io(err)
    }
}

} // verus!
