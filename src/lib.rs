//! A ledger of finished books: for each reader, how many books they have
//! completed and the title of the latest one, plus a counter of completions
//! across all readers.
use vstd::prelude::*;

pub mod ledger;
pub mod tracker;

pub use ledger::LedgerView;
pub use tracker::{bump_counts, ReadingTracker};

verus! {

/// Why a completion could not be recorded.
#[derive(Debug, Clone, Copy, PartialEq, Eq, Structural)]
pub enum LedgerError {
    /// The store cannot hold the update.
    StorageFailure,
}

} // verus!
