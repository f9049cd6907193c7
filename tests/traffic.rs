use std::collections::HashMap;

use netguard::capture::Protocol;
use netguard::process_mapper::{PortOwner, ProcessInfo, ProcessMapper};
use netguard::traffic::{ProcessTrafficSnapshot, TrafficTracker};

fn empty_mapper() -> ProcessMapper {
    ProcessMapper::new()
}

#[test]
fn test_new_tracker_empty() {
    let tracker = TrafficTracker::new();
    let mapper = empty_mapper();
    let snap = tracker.snapshot(&mapper);
    assert!(snap.is_empty(), "new tracker should produce an empty snapshot");
}

#[test]
fn test_record_bytes_single() {
    let mut tracker = TrafficTracker::new();
    let mapper = empty_mapper();

    tracker.record_bytes(1, 100, 200);

    let snap = tracker.snapshot(&mapper);
    assert_eq!(snap.len(), 1);
    let entry = &snap[0];
    assert_eq!(entry.pid, 1);
    assert_eq!(entry.bytes_sent, 100);
    assert_eq!(entry.bytes_recv, 200);
}

#[test]
fn test_record_bytes_accumulates() {
    let mut tracker = TrafficTracker::new();
    let mapper = empty_mapper();

    tracker.record_bytes(1, 100, 200);
    tracker.record_bytes(1, 50, 80);

    let snap = tracker.snapshot(&mapper);
    assert_eq!(snap.len(), 1);
    let entry = &snap[0];
    assert_eq!(entry.bytes_sent, 150, "bytes_sent should accumulate");
    assert_eq!(entry.bytes_recv, 280, "bytes_recv should accumulate");
}

#[test]
fn test_record_bytes_multiple_pids() {
    let mut tracker = TrafficTracker::new();
    let mapper = empty_mapper();

    tracker.record_bytes(1, 100, 200);
    tracker.record_bytes(2, 300, 400);

    let snap = tracker.snapshot(&mapper);
    assert_eq!(snap.len(), 2, "should track two separate PIDs");

    let mut by_pid: HashMap<u32, &ProcessTrafficSnapshot> = snap.iter().map(|s| (s.pid, s)).collect();

    let p1 = by_pid.remove(&1).expect("PID 1 missing");
    assert_eq!(p1.bytes_sent, 100);
    assert_eq!(p1.bytes_recv, 200);

    let p2 = by_pid.remove(&2).expect("PID 2 missing");
    assert_eq!(p2.bytes_sent, 300);
    assert_eq!(p2.bytes_recv, 400);
}

#[test]
fn test_tick_speeds_first_tick_zero() {
    let mut tracker = TrafficTracker::new();
    let mapper = empty_mapper();

    tracker.record_bytes(1, 1000, 2000);
    tracker.tick_speeds();

    let snap = tracker.snapshot(&mapper);
    assert_eq!(snap.len(), 1);
    let entry = &snap[0];
    assert!(entry.upload_speed == 0, "upload_speed should be 0 on first tick (baseline only)");
    assert!(entry.download_speed == 0, "download_speed should be 0 on first tick (baseline only)");
}

#[test]
fn test_snapshot_fallback_name() {
    let mut tracker = TrafficTracker::new();
    let mapper = empty_mapper();

    tracker.record_bytes(99999, 10, 20);

    let snap = tracker.snapshot(&mapper);
    assert_eq!(snap.len(), 1);
    let entry = &snap[0];
    assert_eq!(entry.pid, 99999);
    assert_eq!(entry.name, "PID 99999", "unknown PID should have fallback name 'PID {{pid}}'");
    assert_eq!(entry.exe_path, "", "unknown PID should have empty exe_path");
}

#[test]
fn tick_speeds_calculates_over_clock_readings() {
    let mut tracker = TrafficTracker::new();
    let mapper = empty_mapper();
    tracker.record_bytes(1, 1000, 2000);
    tracker.tick_speeds_at(1_000_000);
    tracker.record_bytes(1, 500, 600);
    // 500 and 600 bytes over half a second.
    tracker.tick_speeds_at(1_500_000);
    let snap = tracker.snapshot(&mapper);
    assert_eq!(snap[0].upload_speed, 1000);
    assert_eq!(snap[0].download_speed, 1200);
}

#[test]
fn remove_stale_keeps_active_process() {
    let mut tracker = TrafficTracker::new();
    let mapper = empty_mapper();
    tracker.record_bytes(1, 1000, 2000);
    tracker.tick_speeds_at(0);
    tracker.record_bytes(1, 500, 600);
    tracker.tick_speeds_at(50_000);
    // Moving: kept however old its last tick.
    tracker.remove_stale_at(10_000_000, 1_000_000_000);
    assert_eq!(tracker.snapshot(&mapper).len(), 1, "active process should not be removed");
}

#[test]
fn remove_stale_evicts_idle_process() {
    let mut tracker = TrafficTracker::new();
    let mapper = empty_mapper();
    tracker.record_bytes(1, 1000, 2000);
    tracker.tick_speeds_at(0);
    tracker.record_bytes(1, 10, 10);
    tracker.tick_speeds_at(1_000_000);
    // Nothing new: speed drops to zero.
    tracker.tick_speeds_at(2_000_000);
    tracker.remove_stale_at(10_000_000, 5_000_000);
    assert_eq!(tracker.snapshot(&mapper).len(), 1, "idle but recent entries stay");
    tracker.remove_stale_at(10_000_000, 12_000_000);
    assert!(tracker.snapshot(&mapper).is_empty(), "idle process should be removed once old enough");
}

#[test]
fn untracked_ticks_keep_never_ticked_entries() {
    let mut tracker = TrafficTracker::new();
    let mapper = empty_mapper();
    tracker.record_bytes(3, 1, 1);
    tracker.remove_stale_at(0, 1_000_000);
    assert_eq!(tracker.snapshot(&mapper).len(), 1);
}

#[test]
fn snapshot_uses_directory_identity_and_counts() {
    let mut mapper = ProcessMapper::new();
    mapper.refresh_process_info(&vec![(
        42,
        ProcessInfo { name: "curl".to_string(), exe_path: "/usr/bin/curl".to_string() },
    )]);
    mapper.replace_port_map(&vec![
        PortOwner { protocol: Protocol::Tcp, port: 5000, pid: 42 },
        PortOwner { protocol: Protocol::Udp, port: 5000, pid: 42 },
        PortOwner { protocol: Protocol::Tcp, port: 6000, pid: 8 },
    ]);
    let mut tracker = TrafficTracker::new();
    tracker.record_bytes(42, 1, 2);
    tracker.update_connection_counts(&mapper);
    let snap = tracker.snapshot(&mapper);
    assert_eq!(snap[0].name, "curl");
    assert_eq!(snap[0].exe_path, "/usr/bin/curl");
    assert_eq!(snap[0].connection_count, 2);
}

#[test]
fn recorded_totals_saturate() {
    let mut tracker = TrafficTracker::new();
    tracker.record_bytes(1, u64::MAX, 0);
    tracker.record_bytes(1, 5, 0);
    let snap = tracker.snapshot(&empty_mapper());
    assert_eq!(snap[0].bytes_sent, u64::MAX);
}

#[test]
fn default_counters_are_zero() {
    let c = netguard::traffic::TrafficCounters::default();
    assert_eq!(c.bytes_sent, 0);
    assert_eq!(c.last_tick, None);
    assert_eq!(c.connection_count, 0);
}
