use std::collections::HashMap;

use netguard::logic::{
    apply_persistent_rules, build_profile_rules, match_rules_to_processes, resolve_intercept_filter,
    validate_intercept_enable, ApplyAction, SavedRule,
};
use netguard::process_mapper::{ProcessInfo, ProcessMapper};
use netguard::rate_limiter::{BandwidthLimit, RateLimiterManager};
use netguard::traffic::{ProcessTrafficSnapshot, TrafficTracker};

fn make_snapshot(pid: u32, name: &str, exe_path: &str) -> ProcessTrafficSnapshot {
    ProcessTrafficSnapshot {
        pid,
        name: name.to_string(),
        exe_path: exe_path.to_string(),
        upload_speed: 0,
        download_speed: 0,
        bytes_sent: 0,
        bytes_recv: 0,
        connection_count: 0,
    }
}

fn make_rule(exe_path: &str, name: &str, dl: u64, ul: u64, blocked: bool) -> SavedRule {
    SavedRule { exe_path: exe_path.to_string(), process_name: name.to_string(), download_bps: dl, upload_bps: ul, blocked }
}

#[test]
fn logic_test_build_profile_rules_with_limits_and_blocks() {
    let mut limits = HashMap::new();
    limits.insert(1, BandwidthLimit { download_bps: 1000, upload_bps: 500 });
    let blocked = vec![2];
    let snapshot = vec![make_snapshot(1, "chrome.exe", r"C:\chrome.exe"), make_snapshot(2, "firefox.exe", r"C:\firefox.exe")];

    let rules = build_profile_rules(&limits, &blocked, &snapshot);
    assert_eq!(rules.len(), 2);

    let chrome_rule = rules.iter().find(|r| r.exe_path == r"C:\chrome.exe").unwrap();
    assert_eq!(chrome_rule.download_bps, 1000);
    assert!(!chrome_rule.blocked);

    let firefox_rule = rules.iter().find(|r| r.exe_path == r"C:\firefox.exe").unwrap();
    assert!(firefox_rule.blocked);
}

#[test]
fn commands_test_build_profile_rules_with_limits_and_blocks() {
    let mut limits = HashMap::new();
    limits.insert(1, BandwidthLimit { download_bps: 1000, upload_bps: 500 });
    let blocked = vec![2];
    let snapshot = vec![make_snapshot(1, "chrome.exe", r"C:\chrome.exe"), make_snapshot(2, "firefox.exe", r"C:\firefox.exe")];

    let rules = build_profile_rules(&limits, &blocked, &snapshot);
    assert_eq!(rules.len(), 2);
    let chrome_rule = rules.iter().find(|r| r.exe_path == r"C:\chrome.exe").unwrap();
    assert_eq!(chrome_rule.download_bps, 1000);
    assert_eq!(chrome_rule.upload_bps, 500);
    assert!(!chrome_rule.blocked);
    let firefox_rule = rules.iter().find(|r| r.exe_path == r"C:\firefox.exe").unwrap();
    assert!(firefox_rule.blocked);
    assert_eq!(firefox_rule.process_name, "firefox.exe");
}

#[test]
fn logic_test_build_profile_rules_empty_inputs() {
    let rules = build_profile_rules(&HashMap::new(), &[], &[]);
    assert!(rules.is_empty());
}

#[test]
fn commands_test_build_profile_rules_empty_inputs() {
    let rules = build_profile_rules(&HashMap::new(), &[], &[]);
    assert!(rules.is_empty());
}

#[test]
fn logic_test_build_profile_rules_pid_not_in_snapshot() {
    let mut limits = HashMap::new();
    limits.insert(999, BandwidthLimit { download_bps: 1000, upload_bps: 500 });
    let snapshot = vec![make_snapshot(1, "chrome.exe", r"C:\chrome.exe")];
    let rules = build_profile_rules(&limits, &[], &snapshot);
    assert!(rules.is_empty());
}

#[test]
fn commands_test_build_profile_rules_pid_not_in_snapshot() {
    let mut limits = HashMap::new();
    limits.insert(999, BandwidthLimit { download_bps: 1000, upload_bps: 500 });
    let snapshot = vec![make_snapshot(1, "chrome.exe", r"C:\chrome.exe")];
    let rules = build_profile_rules(&limits, &[], &snapshot);
    assert!(rules.is_empty(), "PID not in snapshot should be skipped");
}

#[test]
fn logic_test_build_profile_rules_blocked_pid_not_in_snapshot() {
    let blocked = vec![999];
    let snapshot = vec![make_snapshot(1, "chrome.exe", r"C:\chrome.exe")];
    let rules = build_profile_rules(&HashMap::new(), &blocked, &snapshot);
    assert!(rules.is_empty());
}

#[test]
fn commands_test_build_profile_rules_blocked_pid_not_in_snapshot() {
    let blocked = vec![999];
    let snapshot = vec![make_snapshot(1, "chrome.exe", r"C:\chrome.exe")];
    let rules = build_profile_rules(&HashMap::new(), &blocked, &snapshot);
    assert!(rules.is_empty());
}

#[test]
fn logic_test_match_rules_block_action() {
    let rules = vec![make_rule(r"C:\firefox.exe", "firefox.exe", 0, 0, true)];
    let snapshot = vec![make_snapshot(42, "firefox.exe", r"C:\firefox.exe")];
    let actions = match_rules_to_processes(&rules, &snapshot);
    assert_eq!(actions, vec![ApplyAction::Block { pid: 42 }]);
}

#[test]
fn commands_test_match_rules_block_action() {
    let rules = vec![make_rule(r"C:\firefox.exe", "firefox.exe", 0, 0, true)];
    let snapshot = vec![make_snapshot(42, "firefox.exe", r"C:\firefox.exe")];
    let actions = match_rules_to_processes(&rules, &snapshot);
    assert_eq!(actions.len(), 1);
    assert_eq!(actions, vec![ApplyAction::Block { pid: 42 }]);
}

#[test]
fn logic_test_match_rules_limit_action() {
    let rules = vec![make_rule(r"C:\chrome.exe", "chrome.exe", 1000, 500, false)];
    let snapshot = vec![make_snapshot(10, "chrome.exe", r"C:\chrome.exe")];
    let actions = match_rules_to_processes(&rules, &snapshot);
    assert_eq!(actions, vec![ApplyAction::Limit { pid: 10, download_bps: 1000, upload_bps: 500 }]);
}

#[test]
fn commands_test_match_rules_limit_action() {
    let rules = vec![make_rule(r"C:\chrome.exe", "chrome.exe", 1000, 500, false)];
    let snapshot = vec![make_snapshot(10, "chrome.exe", r"C:\chrome.exe")];
    let actions = match_rules_to_processes(&rules, &snapshot);
    assert_eq!(actions.len(), 1);
    assert_eq!(actions, vec![ApplyAction::Limit { pid: 10, download_bps: 1000, upload_bps: 500 }]);
}

#[test]
fn logic_test_match_rules_empty_rules() {
    let snapshot = vec![make_snapshot(1, "chrome.exe", r"C:\chrome.exe")];
    assert!(match_rules_to_processes(&[], &snapshot).is_empty());
}

#[test]
fn commands_test_match_rules_empty_rules() {
    let snapshot = vec![make_snapshot(1, "chrome.exe", r"C:\chrome.exe")];
    assert!(match_rules_to_processes(&[], &snapshot).is_empty());
}

#[test]
fn logic_test_match_rules_no_matching_processes() {
    let rules = vec![make_rule(r"C:\notepad.exe", "notepad.exe", 1000, 500, false)];
    let snapshot = vec![make_snapshot(1, "chrome.exe", r"C:\chrome.exe")];
    assert!(match_rules_to_processes(&rules, &snapshot).is_empty());
}

#[test]
fn commands_test_match_rules_no_matching_processes() {
    let rules = vec![make_rule(r"C:\notepad.exe", "notepad.exe", 1000, 500, false)];
    let snapshot = vec![make_snapshot(1, "chrome.exe", r"C:\chrome.exe")];
    assert!(match_rules_to_processes(&rules, &snapshot).is_empty());
}

#[test]
fn logic_test_match_rules_zero_limits_skipped() {
    let rules = vec![make_rule(r"C:\chrome.exe", "chrome.exe", 0, 0, false)];
    let snapshot = vec![make_snapshot(1, "chrome.exe", r"C:\chrome.exe")];
    assert!(match_rules_to_processes(&rules, &snapshot).is_empty());
}

#[test]
fn commands_test_match_rules_zero_limits_skipped() {
    let rules = vec![make_rule(r"C:\chrome.exe", "chrome.exe", 0, 0, false)];
    let snapshot = vec![make_snapshot(1, "chrome.exe", r"C:\chrome.exe")];
    assert!(
        match_rules_to_processes(&rules, &snapshot).is_empty(),
        "Rule with 0/0 limits and not blocked should produce no action"
    );
}

#[test]
fn logic_test_match_rules_multiple_processes_same_exe() {
    let rules = vec![make_rule(r"C:\chrome.exe", "chrome.exe", 1000, 500, false)];
    let snapshot = vec![make_snapshot(1, "chrome.exe", r"C:\chrome.exe"), make_snapshot(2, "chrome.exe", r"C:\chrome.exe")];
    assert_eq!(match_rules_to_processes(&rules, &snapshot).len(), 2);
}

#[test]
fn commands_test_match_rules_multiple_processes_same_exe() {
    let rules = vec![make_rule(r"C:\chrome.exe", "chrome.exe", 1000, 500, false)];
    let snapshot = vec![make_snapshot(1, "chrome.exe", r"C:\chrome.exe"), make_snapshot(2, "chrome.exe", r"C:\chrome.exe")];
    assert_eq!(match_rules_to_processes(&rules, &snapshot).len(), 2, "Should match both PIDs with same exe_path");
}

#[test]
fn logic_test_validate_intercept_enable_ok() {
    assert!(validate_intercept_enable(false).is_ok());
}

#[test]
fn commands_test_validate_intercept_enable_ok() {
    assert!(validate_intercept_enable(false).is_ok());
}

#[test]
fn logic_test_validate_intercept_enable_already_active() {
    assert_eq!(validate_intercept_enable(true).unwrap_err().kind(), "InvalidInput");
}

#[test]
fn commands_test_validate_intercept_enable_already_active() {
    assert_eq!(validate_intercept_enable(true).unwrap_err().kind(), "InvalidInput");
}

#[test]
fn logic_test_resolve_filter_default() {
    assert_eq!(resolve_intercept_filter(None), "tcp or udp");
}

#[test]
fn commands_test_resolve_filter_default() {
    assert_eq!(resolve_intercept_filter(None), "tcp or udp");
}

#[test]
fn logic_test_resolve_filter_custom() {
    assert_eq!(resolve_intercept_filter(Some("tcp.DstPort == 5201".to_string())), "tcp.DstPort == 5201");
}

#[test]
fn commands_test_resolve_filter_custom() {
    assert_eq!(resolve_intercept_filter(Some("tcp.DstPort == 5201".to_string())), "tcp.DstPort == 5201");
}

#[test]
fn match_rules_keeps_rule_then_process_order() {
    let rules = vec![make_rule("/b", "b", 0, 0, true), make_rule("/a", "a", 7, 0, false)];
    let snapshot = vec![make_snapshot(1, "a", "/a"), make_snapshot(2, "b", "/b"), make_snapshot(3, "a", "/a")];
    assert_eq!(
        match_rules_to_processes(&rules, &snapshot),
        vec![
            ApplyAction::Block { pid: 2 },
            ApplyAction::Limit { pid: 1, download_bps: 7, upload_bps: 0 },
            ApplyAction::Limit { pid: 3, download_bps: 7, upload_bps: 0 },
        ]
    );
}

#[test]
fn saved_rules_apply_to_running_processes() {
    let mut mapper = ProcessMapper::new();
    mapper.refresh_process_info(&vec![
        (1, ProcessInfo { name: "a".to_string(), exe_path: "/a".to_string() }),
        (2, ProcessInfo { name: "b".to_string(), exe_path: "/b".to_string() }),
    ]);
    let mut tracker = TrafficTracker::new();
    tracker.record_bytes(1, 1, 1);
    tracker.record_bytes(2, 1, 1);
    let mut limiter = RateLimiterManager::new();
    limiter.set_limit(2, BandwidthLimit { download_bps: 5, upload_bps: 5 });
    let rules = vec![make_rule("/a", "a", 0, 0, true), make_rule("/b", "b", 9, 9, false)];
    apply_persistent_rules(&tracker, &mapper, &mut limiter, &rules);
    assert!(limiter.is_blocked(1));
    // An existing limit is kept.
    assert_eq!(limiter.get_all_limits()[&2].download_bps, 5);
    assert!(!limiter.is_blocked(2));
}

#[test]
fn activating_a_profile_replaces_limits_and_blocks() {
    let mut mapper = ProcessMapper::new();
    mapper.refresh_process_info(&vec![
        (1, ProcessInfo { name: "a".to_string(), exe_path: "/a".to_string() }),
        (2, ProcessInfo { name: "b".to_string(), exe_path: "/b".to_string() }),
    ]);
    let mut tracker = TrafficTracker::new();
    tracker.record_bytes(1, 1, 1);
    tracker.record_bytes(2, 1, 1);
    let mut limiter = RateLimiterManager::new();
    limiter.set_limit(9, BandwidthLimit { download_bps: 1, upload_bps: 1 });
    limiter.block_process(8);
    let rules = vec![make_rule("/a", "a", 0, 0, true), make_rule("/b", "b", 300, 200, false), make_rule("/c", "c", 1, 1, false)];
    let n = netguard::logic::apply_profile_rules(&tracker, &mapper, &mut limiter, &rules);
    assert_eq!(n, 2);
    assert!(limiter.is_blocked(1));
    assert!(!limiter.is_blocked(8));
    assert!(!limiter.is_limited(9));
    assert_eq!(limiter.get_all_limits()[&2].upload_bps, 200);
}

#[test]
fn actions_are_taken_in_order() {
    let mut limiter = RateLimiterManager::new();
    let actions = vec![
        ApplyAction::Limit { pid: 3, download_bps: 10, upload_bps: 10 },
        ApplyAction::Block { pid: 4 },
        ApplyAction::Limit { pid: 3, download_bps: 20, upload_bps: 5 },
    ];
    netguard::logic::apply_actions(&mut limiter, &actions);
    assert_eq!(limiter.get_all_limits()[&3].download_bps, 20);
    assert_eq!(limiter.get_blocked_pids(), vec![4]);
}
