//! The crate's recoverable error conditions. Unrecoverable faults (backing
//! reads that fail, reference counts out of range) are excluded by the
//! functions' preconditions instead: a verified caller can never reach them.

use vstd::prelude::*;

verus! {

/// A recoverable error, reported to the caller as a typed result.
#[derive(Debug)]
pub enum Error {
    /// The migration chain cannot be extended with the offered step.
    CannotAddMigration,
    /// No migration path exists from the requested version.
    MigrationImpossible,
    /// A failure reported by the backing store during a write.
    Custom(String),
    /// A migration step failed: the version of the failing step and the
    /// error it reported.
    StepFailed(u32, Box<Error>),
}

} // verus!
