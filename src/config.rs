//! Runtime intervals, thresholds and counts.

use vstd::prelude::*;

verus! {

/// Seconds between speed ticks and snapshot emission.
pub const STATS_INTERVAL_SECS: u64 = 1;

/// Seconds between traffic history records.
pub const HISTORY_RECORD_INTERVAL_SECS: u64 = 5;

/// Seconds between tray and notification updates.
pub const TRAY_UPDATE_INTERVAL_SECS: u64 = 2;

/// Seconds between applications of saved rules to new processes.
pub const PERSISTENT_RULES_INTERVAL_SECS: u64 = 3;

/// Days of traffic history kept.
pub const PRUNE_MAX_AGE_DAYS: u64 = 90;

/// History ticks between pruning checks: one day at the record interval.
pub const PRUNE_CHECK_INTERVAL_TICKS: u64 = 17280;

/// Seconds an idle process stays in the ledger.
pub const STALE_PROCESS_TIMEOUT_SECS: u64 = 10;

/// Number of top consumers shown in the tray menu.
pub const TRAY_TOP_CONSUMERS_COUNT: usize = 5;

/// Milliseconds between refreshes of the process/port directory.
pub const PROCESS_SCAN_INTERVAL_MS: u64 = 500;

} // verus!
