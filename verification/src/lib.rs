//! Portfolio accounting for an individual investor.
//!
//! The crate ingests a normalized transaction ledger and derives a running
//! average-cost basis per security, converts monetary columns between
//! currencies with time-indexed exchange quotes, and decides whether locally
//! cached market history already satisfies a request or a delta fetch is
//! needed.  All monetary values are exact rationals; every public function
//! carries a contract stating the value it computes.

pub mod cache;
pub mod currency;
pub mod date;
pub mod dividends;
pub mod ledger;
pub mod liquidated;
pub mod perpetual_inventory;
pub mod portfolio;
pub mod rational;
pub mod scraper;
pub mod summary;
pub mod timeline;
pub mod schema;
pub mod uninvested;
pub mod utils;

use vstd::prelude::*;

verus! {

/// Error taxonomy of the library.
///
/// Per-row data-quality issues degrade gracefully inside the components and
/// never surface here; these variants mark a broken environment or contract.
#[derive(Debug, Clone, Copy, PartialEq, Eq, Structural)]
pub enum Error {
    /// A reduced rational no longer fits its 64-bit fields, or a division
    /// by zero was requested.
    Arithmetic,
    /// An operation that needs at least one row was handed an empty table.
    EmptyTable,
    /// A malformed input row.
    Parse,
    /// The remote quote source failed; fatal, never retried.
    Fetch,
    /// A cached series could not be read; recovered by refetching.
    CacheIo,
    /// A state no filter should have let through.
    InvariantViolation,
}

impl Error {
    /// A short description, for diagnostics printed by the caller.
    pub fn message(&self) -> (r: &'static str)
        ensures
            r@ == self.spec_message(),
    {
        match self {
            Error::Arithmetic => "arithmetic overflow in exact rational",
            Error::EmptyTable => "argument table must not be empty",
            Error::Parse => "malformed input row",
            Error::Fetch => "market data fetch failed",
            Error::CacheIo => "cache file unreadable",
            Error::InvariantViolation => "internal invariant violated",
        }
    }

    pub open spec fn spec_message(self) -> Seq<char> {
        match self {
            Error::Arithmetic => "arithmetic overflow in exact rational"@,
            Error::EmptyTable => "argument table must not be empty"@,
            Error::Parse => "malformed input row"@,
            Error::Fetch => "market data fetch failed"@,
            Error::CacheIo => "cache file unreadable"@,
            Error::InvariantViolation => "internal invariant violated"@,
        }
    }
}

} // verus!
