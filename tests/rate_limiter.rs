use netguard::rate_limiter::{BandwidthLimit, RateLimiterManager, TokenBucket};

#[test]
fn test_new_manager_is_empty() {
    let mgr = RateLimiterManager::new();
    assert!(mgr.get_all_limits().is_empty(), "new manager should have no limits");
    assert!(mgr.get_blocked_pids().is_empty(), "new manager should have no blocks");
}

#[test]
fn test_set_and_get_limit() {
    let mut mgr = RateLimiterManager::new();
    mgr.set_limit(100, BandwidthLimit { download_bps: 5000, upload_bps: 3000 });

    let limits = mgr.get_all_limits();
    assert_eq!(limits.len(), 1);
    let limit = limits.get(&100).expect("PID 100 should have a limit");
    assert_eq!(limit.download_bps, 5000);
    assert_eq!(limit.upload_bps, 3000);
}

#[test]
fn test_remove_limit() {
    let mut mgr = RateLimiterManager::new();
    mgr.set_limit(100, BandwidthLimit { download_bps: 5000, upload_bps: 3000 });
    assert!(mgr.is_limited(100));

    mgr.remove_limit(100);
    assert!(!mgr.is_limited(100), "PID 100 should no longer be limited after removal");
    assert!(mgr.get_all_limits().is_empty());
}

#[test]
fn test_is_limited() {
    let mut mgr = RateLimiterManager::new();
    assert!(!mgr.is_limited(100), "unlisted PID should not be limited");

    mgr.set_limit(100, BandwidthLimit { download_bps: 1000, upload_bps: 1000 });
    assert!(mgr.is_limited(100), "PID with set limit should be limited");

    mgr.remove_limit(100);
    assert!(!mgr.is_limited(100), "PID should not be limited after removal");
}

#[test]
fn test_block_and_unblock() {
    let mut mgr = RateLimiterManager::new();
    assert!(!mgr.is_blocked(200), "PID should not be blocked initially");

    mgr.block_process(200);
    assert!(mgr.is_blocked(200), "PID 200 should be blocked after block_process");

    mgr.unblock_process(200);
    assert!(!mgr.is_blocked(200), "PID 200 should not be blocked after unblock");
}

#[test]
fn test_get_blocked_pids() {
    let mut mgr = RateLimiterManager::new();
    mgr.block_process(10);
    mgr.block_process(20);
    mgr.block_process(30);

    let mut blocked = mgr.get_blocked_pids();
    blocked.sort();
    assert_eq!(blocked, vec![10, 20, 30]);
}

#[test]
fn test_clear_all() {
    let mut mgr = RateLimiterManager::new();
    mgr.set_limit(1, BandwidthLimit { download_bps: 1000, upload_bps: 500 });
    mgr.set_limit(2, BandwidthLimit { download_bps: 2000, upload_bps: 1000 });
    mgr.block_process(3);
    mgr.block_process(4);

    mgr.clear_all();

    assert!(mgr.get_all_limits().is_empty(), "limits should be empty after clear_all");
    assert!(mgr.get_blocked_pids().is_empty(), "blocked pids should be empty after clear_all");
    assert!(!mgr.is_limited(1));
    assert!(!mgr.is_blocked(3));
}

#[test]
fn test_consume_no_limit_returns_zero() {
    let mut mgr = RateLimiterManager::new();
    let delay = mgr.consume(999, 10_000, false);
    assert_eq!(delay, 0, "consume for unmanaged PID should return 0 delay");
}

#[test]
fn test_consume_within_burst_returns_zero() {
    let mut mgr = RateLimiterManager::new();
    mgr.set_limit(100, BandwidthLimit { download_bps: 1_000_000, upload_bps: 1_000_000 });
    let delay = mgr.consume(100, 500, false);
    assert_eq!(delay, 0, "small consume within burst should return 0 delay");
}

#[test]
fn test_consume_exceeding_tokens_returns_delay() {
    let mut mgr = RateLimiterManager::new();
    mgr.set_limit(100, BandwidthLimit { download_bps: 1000, upload_bps: 1000 });
    let delay = mgr.consume(100, 5000, false);
    assert!(delay > 0, "consuming 5000 bytes with 1000 bps rate (2000 burst) should return non-zero delay");
}

#[test]
fn test_consume_upload_and_download_independent() {
    let mut mgr = RateLimiterManager::new();
    mgr.set_limit(100, BandwidthLimit { download_bps: 1000, upload_bps: 1000 });

    let dl_delay = mgr.consume(100, 5000, false);
    assert!(dl_delay > 0, "download bucket should be exhausted");

    let ul_delay = mgr.consume(100, 500, true);
    assert_eq!(ul_delay, 0, "upload bucket should be independent and still have tokens");
}

#[test]
fn test_update_rate_via_set_limit() {
    let mut mgr = RateLimiterManager::new();
    mgr.set_limit(100, BandwidthLimit { download_bps: 1000, upload_bps: 500 });

    let limits_v1 = mgr.get_all_limits();
    assert_eq!(limits_v1.get(&100).unwrap().download_bps, 1000);

    mgr.set_limit(100, BandwidthLimit { download_bps: 5000, upload_bps: 2500 });

    let limits_v2 = mgr.get_all_limits();
    let limit = limits_v2.get(&100).unwrap();
    assert_eq!(limit.download_bps, 5000, "download rate should be updated");
    assert_eq!(limit.upload_bps, 2500, "upload rate should be updated");
    assert_eq!(limits_v2.len(), 1, "should still have only one entry for PID 100");
}

#[test]
fn test_should_pass_no_limit() {
    let mut mgr = RateLimiterManager::new();
    assert!(mgr.should_pass_packet(999, 10_000, false), "unmanaged PID should always pass");
}

#[test]
fn test_should_pass_within_budget() {
    let mut mgr = RateLimiterManager::new();
    mgr.set_limit(100, BandwidthLimit { download_bps: 1_000_000, upload_bps: 1_000_000 });
    assert!(mgr.should_pass_packet(100, 500, false), "small packet should pass");
}

#[test]
fn test_should_drop_over_budget() {
    let mut mgr = RateLimiterManager::new();
    mgr.set_limit(100, BandwidthLimit { download_bps: 1000, upload_bps: 1000 });
    assert!(mgr.should_pass_packet(100, 1500, false), "first 1500 bytes should pass");
    assert!(mgr.should_pass_packet(100, 400, false), "next 400 bytes should pass (still within 2000)");
    assert!(!mgr.should_pass_packet(100, 500, false), "over-budget packet should be dropped");
}

#[test]
fn test_should_drop_blocked_pid() {
    let mut mgr = RateLimiterManager::new();
    mgr.block_process(200);
    assert!(!mgr.should_pass_packet(200, 100, false), "blocked PID should be dropped");
    assert!(!mgr.should_pass_packet(200, 100, true), "blocked PID upload should be dropped");
}

#[test]
fn token_bucket_refills_over_clock_readings() {
    let mut mgr = RateLimiterManager::new();
    mgr.set_limit(100, BandwidthLimit { download_bps: 10_000, upload_bps: 10_000 });
    assert_eq!(mgr.consume_at(100, 20_000, false, 1_000_000), 0);
    // 1000 bytes owed at 10000 B/s: 100 ms.
    assert_eq!(mgr.consume_at(100, 1_000, false, 1_000_000), 100);
    // 200 ms later 2000 bytes came back: 1000 in hand.
    assert_eq!(mgr.consume_at(100, 500, false, 1_200_000), 0);
}

#[test]
fn delay_rounds_up_to_whole_milliseconds() {
    let mut mgr = RateLimiterManager::new();
    mgr.set_limit(1, BandwidthLimit { download_bps: 3, upload_bps: 3 });
    // Burst 6, take 7: one byte owed at 3 B/s is 333.3 ms.
    assert_eq!(mgr.consume_at(1, 7, false, 0), 334);
}

#[test]
fn policer_refills_after_drop_over_clock_readings() {
    let mut mgr = RateLimiterManager::new();
    mgr.set_limit(100, BandwidthLimit { download_bps: 10_000, upload_bps: 10_000 });
    assert!(mgr.should_pass_packet_at(100, 20_000, false, 5_000_000));
    assert!(!mgr.should_pass_packet_at(100, 1_000, false, 5_000_000));
    assert!(mgr.should_pass_packet_at(100, 500, false, 5_200_000));
}

#[test]
fn fresh_bucket_holds_twice_its_rate() {
    let b = TokenBucket::new(1000);
    assert_eq!(b.tokens, 2000 * 1_000_000);
    let mut exact = b;
    assert_eq!(exact.consume(2000, 0), 0);
    let mut over = TokenBucket::new(1000);
    assert!(over.consume(3000, 0) > 0);
    let mut zero = TokenBucket::new(1000);
    let first = zero.should_pass(0, 0);
    let second = zero.should_pass(0, 0);
    assert!(first && second);
}

#[test]
fn refused_packet_leaves_tokens_in_place() {
    let mut b = TokenBucket::new(1000);
    assert!(b.should_pass(1900, 0));
    let before = b.tokens;
    assert!(!b.should_pass(500, 0));
    assert_eq!(b.tokens, before);
    assert!(b.should_pass(100, 0));
}

#[test]
fn blocked_pid_is_refused_even_when_unlimited() {
    let mut mgr = RateLimiterManager::new();
    mgr.set_limit(5, BandwidthLimit { download_bps: 0, upload_bps: 0 });
    assert!(mgr.should_pass_packet_at(5, 1_000_000, true, 0));
    mgr.block_process(5);
    assert!(!mgr.should_pass_packet_at(5, 1, true, 0));
    assert!(!mgr.should_pass_packet_at(5, 1, false, 0));
}

#[test]
fn unlimited_direction_never_delays() {
    let mut mgr = RateLimiterManager::new();
    mgr.set_limit(5, BandwidthLimit { download_bps: 0, upload_bps: 100 });
    assert_eq!(mgr.consume_at(5, u64::MAX, false, 0), 0);
    assert_eq!(mgr.consume_at(5, 300, true, 0), 1000);
}

#[test]
fn lowering_a_limit_clamps_the_tokens() {
    let mut b = TokenBucket::new(1000);
    b.update_rate(10);
    assert_eq!(b.tokens, 20 * 1_000_000);
    b.update_rate(1000);
    assert_eq!(b.tokens, 20 * 1_000_000);
}

#[test]
fn scenario_burst_consumed_then_refused() {
    let mut mgr = RateLimiterManager::new();
    mgr.set_limit(100, BandwidthLimit { download_bps: 1000, upload_bps: 1000 });
    assert!(mgr.should_pass_packet_at(100, 1500, false, 0));
    assert!(mgr.should_pass_packet_at(100, 400, false, 0));
    assert!(!mgr.should_pass_packet_at(100, 500, false, 0));
}

#[test]
fn burst_plus_one_thousand_owes_exactly_that() {
    let mut mgr = RateLimiterManager::new();
    mgr.set_limit(1, BandwidthLimit { download_bps: 1000, upload_bps: 3 });
    // 1000 bytes owed at 1000 B/s: one second.
    assert_eq!(mgr.consume_at(1, 3000, false, 0), 1000);
    // 1000 bytes owed at 3 B/s: ceil(1_000_000 / 3) ms.
    assert_eq!(mgr.consume_at(1, 1006, true, 0), 333_334);
    let mut fresh = RateLimiterManager::new();
    fresh.set_limit(2, BandwidthLimit { download_bps: 1000, upload_bps: 1000 });
    assert_eq!(fresh.consume_at(2, 2000, true, 0), 0);
}
