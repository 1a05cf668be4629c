//! Tests of the client-facing configuration types.

use statedb::config::{DatabaseCompactionProfile, Mode};
use std::time::Duration;

#[test]
fn default_compaction_profile() {
    assert_eq!(DatabaseCompactionProfile::default(), DatabaseCompactionProfile::Default);
}

#[test]
fn default_mode_is_active() {
    assert_eq!(Mode::default(), Mode::Active);
}

#[test]
fn passive_mode_keeps_durations() {
    let m = Mode::Passive(Duration::from_secs(3), Duration::from_secs(5));
    match m {
        Mode::Passive(a, b) => {
            assert_eq!(a, Duration::from_secs(3));
            assert_eq!(b, Duration::from_secs(5));
        },
        _ => panic!("expected the passive mode"),
    }
}
