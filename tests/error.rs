use netguard::config::{
    HISTORY_RECORD_INTERVAL_SECS, PERSISTENT_RULES_INTERVAL_SECS, PROCESS_SCAN_INTERVAL_MS,
    PRUNE_CHECK_INTERVAL_TICKS, PRUNE_MAX_AGE_DAYS, STATS_INTERVAL_SECS, TRAY_TOP_CONSUMERS_COUNT,
    TRAY_UPDATE_INTERVAL_SECS,
};
use netguard::error::AppError;

#[test]
fn test_error_kind_returns_correct_variant_name() {
    assert_eq!(AppError::Database("db fail".into()).kind(), "Database");
    assert_eq!(AppError::Capture("cap fail".into()).kind(), "Capture");
    assert_eq!(AppError::RateLimiter("rate fail".into()).kind(), "RateLimiter");
    assert_eq!(AppError::Io("io fail".into()).kind(), "Io");
    assert_eq!(AppError::InvalidInput("bad input".into()).kind(), "InvalidInput");
}

#[test]
fn test_error_display_shows_message() {
    let err = AppError::Database("connection lost".into());
    assert_eq!(err.message(), "connection lost");
}

#[test]
fn test_from_anyhow_produces_database_variant() {
    let anyhow_err = anyhow::Error::msg("sqlite busy");
    let app_err: AppError = anyhow_err.into();
    assert_eq!(app_err.kind(), "Database");
    assert!(app_err.message().contains("sqlite busy"));
}

#[test]
fn test_from_io_error_produces_io_variant() {
    let io_err = std::io::Error::new(std::io::ErrorKind::NotFound, "file missing");
    let app_err: AppError = io_err.into();
    assert_eq!(app_err.kind(), "Io");
    assert!(app_err.message().contains("file missing"));
}

#[test]
fn test_prune_interval_approximates_one_day() {
    let total_secs = HISTORY_RECORD_INTERVAL_SECS * PRUNE_CHECK_INTERVAL_TICKS;
    assert_eq!(total_secs, 86400, "prune interval should equal one day in seconds");
}

#[test]
fn test_all_intervals_positive() {
    assert!(STATS_INTERVAL_SECS > 0);
    assert!(HISTORY_RECORD_INTERVAL_SECS > 0);
    assert!(TRAY_UPDATE_INTERVAL_SECS > 0);
    assert!(PERSISTENT_RULES_INTERVAL_SECS > 0);
    assert!(PRUNE_MAX_AGE_DAYS > 0);
    assert!(PRUNE_CHECK_INTERVAL_TICKS > 0);
    assert!(TRAY_TOP_CONSUMERS_COUNT > 0);
    assert!(PROCESS_SCAN_INTERVAL_MS > 0);
}

#[test]
fn clock_reads_after_the_epoch() {
    assert!(netguard::clock::chrono_timestamp() > 1_000_000_000);
}
