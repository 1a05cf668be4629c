//! Client-facing configuration values for the storage layer.

use std::time::Duration;
use vstd::prelude::*;

verus! {

/// Client state database compaction profile.
#[derive(Debug, PartialEq, Eq, Structural)]
pub enum DatabaseCompactionProfile {
    /// Default compaction profile.
    Default,
    /// Compaction profile for a hard disk or other slow storage.
    HDD,
}

impl Default for DatabaseCompactionProfile {
    /// The default compaction profile.
    fn default() -> (r: DatabaseCompactionProfile)
        ensures
            r == DatabaseCompactionProfile::Default,
    {
        DatabaseCompactionProfile::Default
    }
}

/// Operating mode for the client.
#[derive(Debug, PartialEq, Eq)]
pub enum Mode {
    /// Always on.
    Active,
    /// Goes offline after the first given time of inactivity, but comes back
    /// online after the second.
    Passive(Duration, Duration),
    /// Goes offline after the given time of inactivity and stays inactive.
    Dark(Duration),
}

impl Default for Mode {
    /// The default operating mode.
    fn default() -> (r: Mode)
        ensures
            r is Active,
    {
        Mode::Active
    }
}

} // verus!
