use std::collections::{HashMap, HashSet};

use netguard::pf_backend::{
    extract_local_port, format_port_list, start_sniff, sync_pf_state, PfError, PfHandle, PfState,
    PIPE_BASE, PIPE_MAX,
};
use netguard::rate_limiter::BandwidthLimit;

#[test]
fn test_extract_local_port_star() {
    assert_eq!(extract_local_port("*:8080"), Some(8080));
}

#[test]
fn test_extract_local_port_ipv4() {
    assert_eq!(extract_local_port("127.0.0.1:3000"), Some(3000));
}

#[test]
fn test_extract_local_port_ipv6() {
    assert_eq!(extract_local_port("[::1]:443"), Some(443));
}

#[test]
fn test_extract_local_port_with_remote() {
    assert_eq!(extract_local_port("192.168.1.1:12345->10.0.0.1:443"), Some(12345));
}

#[test]
fn test_extract_local_port_star_with_remote() {
    assert_eq!(extract_local_port("*:8080->192.168.1.1:443"), Some(8080));
}

#[test]
fn test_extract_local_port_invalid() {
    assert_eq!(extract_local_port("no-port-here"), None);
    assert_eq!(extract_local_port(""), None);
}

#[test]
fn test_extract_local_port_non_numeric() {
    assert_eq!(extract_local_port("*:http"), None);
}

#[test]
fn extract_local_port_edge_numbers() {
    assert_eq!(extract_local_port("*:+80"), Some(80));
    assert_eq!(extract_local_port("*:65535"), Some(65535));
    assert_eq!(extract_local_port("*:65536"), None);
    assert_eq!(extract_local_port("*:"), None);
    assert_eq!(extract_local_port("*:+"), None);
    assert_eq!(extract_local_port("*:0008"), Some(8));
}

#[test]
fn test_format_port_list_empty() {
    let ports = HashSet::new();
    assert_eq!(format_port_list(&ports), "");
}

#[test]
fn test_format_port_list_single() {
    let mut ports = HashSet::new();
    ports.insert(8080);
    assert_eq!(format_port_list(&ports), "8080");
}

#[test]
fn test_format_port_list_multiple_sorted() {
    let mut ports = HashSet::new();
    ports.insert(443);
    ports.insert(80);
    ports.insert(8080);
    assert_eq!(format_port_list(&ports), "80, 443, 8080");
}

#[test]
fn test_pf_state_new() {
    let state = PfState::new();
    assert!(state.pipe_count() == 0);
    assert!(state.blocked_count() == 0);
    assert_eq!(state.next_pipe(), PIPE_BASE);
    assert!(!state.anchor_registered());
    assert!(!state.is_active());
}

#[test]
fn test_allocate_pipe_pair() {
    let mut state = PfState::new();
    let (dl, ul) = state.allocate_pipe_pair().unwrap();
    assert_eq!(dl, PIPE_BASE);
    assert_eq!(ul, PIPE_BASE + 1);

    let (dl2, ul2) = state.allocate_pipe_pair().unwrap();
    assert_eq!(dl2, PIPE_BASE + 2);
    assert_eq!(ul2, PIPE_BASE + 3);
}

#[test]
fn test_allocate_pipe_pair_exhaustion() {
    let mut state = PfState::new();
    while state.next_pipe() < PIPE_MAX {
        state.allocate_pipe_pair().unwrap();
    }
    assert!(state.allocate_pipe_pair().is_err());
}

fn ports_of(list: &[u16]) -> HashSet<u16> {
    list.iter().copied().collect()
}

#[test]
fn test_generate_pf_rules_empty() {
    let state = PfState::new();
    let rules = state.generate_pf_rules();
    assert!(rules.contains("auto-generated"));
    assert!(!rules.contains("dummynet"));
    assert!(!rules.contains("block"));
}

#[test]
fn test_generate_pf_rules_rate_limited() {
    let mut state = PfState::new();
    state.set_rate_limit(100, 1_000_000, 500_000, ports_of(&[80, 443])).unwrap();

    let rules = state.generate_pf_rules();
    assert!(rules.contains("dummynet in"));
    assert!(rules.contains("dummynet out"));
    assert!(rules.contains("pipe 10000"));
    assert!(rules.contains("pipe 10001"));
    assert!(rules.contains("80"));
    assert!(rules.contains("443"));
}

#[test]
fn test_generate_pf_rules_blocked() {
    let mut state = PfState::new();
    state.block_process(200, ports_of(&[5201]));

    let rules = state.generate_pf_rules();
    assert!(rules.contains("block drop in"));
    assert!(rules.contains("block drop out"));
    assert!(rules.contains("5201"));
}

#[test]
fn test_generate_pf_rules_empty_ports_skipped() {
    let mut state = PfState::new();
    state.set_rate_limit(100, 1_000_000, 500_000, HashSet::new()).unwrap();
    state.block_process(200, HashSet::new());

    let rules = state.generate_pf_rules();
    assert!(!rules.contains("dummynet"));
    assert!(!rules.contains("block drop"));
}

#[test]
fn test_generate_pf_rules_mixed() {
    let mut state = PfState::new();
    state.set_rate_limit(100, 1_000_000, 500_000, ports_of(&[8080])).unwrap();
    state.block_process(200, ports_of(&[9090]));

    let rules = state.generate_pf_rules();
    assert!(rules.contains("dummynet in"));
    assert!(rules.contains("dummynet out"));
    assert!(rules.contains("pipe 10000"));
    assert!(rules.contains("8080"));
    assert!(rules.contains("block drop"));
    assert!(rules.contains("9090"));
}

#[test]
fn test_pf_handle_new() {
    let handle = PfHandle::new();
    assert!(!handle.is_active());
}

#[test]
fn test_pf_handle_active_flag() {
    let mut handle = PfHandle::new();
    assert!(!handle.is_active());
    handle.set_active(true);
    assert!(handle.is_active());
    handle.set_active(false);
    assert!(!handle.is_active());
}

#[test]
fn test_pipe_allocation_increments() {
    let mut state = PfState::new();
    let (d1, u1) = state.allocate_pipe_pair().unwrap();
    let (d2, u2) = state.allocate_pipe_pair().unwrap();
    let (d3, u3) = state.allocate_pipe_pair().unwrap();
    assert_eq!(d1, PIPE_BASE);
    assert_eq!(u1, PIPE_BASE + 1);
    assert_eq!(d2, PIPE_BASE + 2);
    assert_eq!(u2, PIPE_BASE + 3);
    assert_eq!(d3, PIPE_BASE + 4);
    assert_eq!(u3, PIPE_BASE + 5);
}

#[test]
fn rule_text_is_exact() {
    let mut state = PfState::new();
    state.set_rate_limit(100, 1000, 0, ports_of(&[443, 80])).unwrap();
    state.block_process(7, ports_of(&[9]));
    let rules = state.generate_pf_rules();
    let body = rules.split("\n\n").nth(1).unwrap();
    assert_eq!(
        body,
        "dummynet in proto { tcp, udp } from any to any port { 80, 443 } pipe 10000\n\
         dummynet out proto { tcp, udp } from any port { 80, 443 } to any pipe 10001\n\
         block drop in proto { tcp, udp } from any to any port { 9 }\n\
         block drop out proto { tcp, udp } from any port { 9 } to any\n"
    );
}

fn command_text(program: &str, args: &[&str]) -> String {
    format!("{} {}", program, args.join(" "))
}

fn plan_commands(plan: &netguard::pf_backend::PfPlan) -> Vec<String> {
    plan.commands.iter().map(|c| format!("{} {}", c.program, c.args.join(" "))).collect()
}

#[test]
fn set_rate_limit_configures_both_pipes() {
    let mut state = PfState::new();
    let plan = state.set_rate_limit(5, 1000, 0, ports_of(&[22])).unwrap();
    assert_eq!(
        plan_commands(&plan),
        vec![
            command_text("dnctl", &["pipe", "10000", "config", "bw", "8000bit/s"]),
            command_text("dnctl", &["pipe", "10001", "config", "bw", "0"]),
        ]
    );
    assert_eq!(plan.rules.unwrap(), state.generate_pf_rules());
    // A second call keeps the pipe numbers.
    let again = state.set_rate_limit(5, 2000, 0, ports_of(&[22])).unwrap();
    assert_eq!(plan_commands(&again)[0], command_text("dnctl", &["pipe", "10000", "config", "bw", "16000bit/s"]));
    assert_eq!(state.next_pipe(), PIPE_BASE + 2);
}

#[test]
fn exhausted_pipes_refuse_only_new_processes() {
    let mut state = PfState::new();
    state.set_rate_limit(1, 10, 10, ports_of(&[1])).unwrap();
    while state.next_pipe() < PIPE_MAX {
        state.allocate_pipe_pair().unwrap();
    }
    assert!(matches!(state.set_rate_limit(2, 10, 10, ports_of(&[2])), Err(PfError::PipesExhausted)));
    assert_eq!(state.pipe_count(), 1);
    assert!(state.set_rate_limit(1, 20, 20, ports_of(&[1])).is_ok());
}

#[test]
fn remove_and_unblock_plans() {
    let mut state = PfState::new();
    state.set_rate_limit(5, 1, 1, ports_of(&[22])).unwrap();
    let plan = state.remove_rate_limit(5);
    assert_eq!(
        plan_commands(&plan),
        vec![command_text("dnctl", &["pipe", "10000", "delete"]), command_text("dnctl", &["pipe", "10001", "delete"])]
    );
    assert!(plan.rules.is_some());
    let none = state.remove_rate_limit(5);
    assert!(none.commands.is_empty() && none.rules.is_none());
    state.block_process(6, ports_of(&[1]));
    assert!(state.unblock_process(6).rules.is_some());
    assert!(state.unblock_process(6).rules.is_none());
    assert_eq!(state.blocked_count(), 0);
}

#[test]
fn update_ports_reloads_only_on_change() {
    let mut state = PfState::new();
    state.set_rate_limit(5, 1, 1, ports_of(&[22])).unwrap();
    assert!(state.update_ports(5, ports_of(&[22])).rules.is_none());
    let plan = state.update_ports(5, ports_of(&[22, 23]));
    assert!(plan.rules.unwrap().contains("{ 22, 23 }"));
    assert!(state.update_ports(99, ports_of(&[1])).rules.is_none());
}

#[test]
fn cleanup_flushes_everything() {
    let mut state = PfState::new();
    state.set_rate_limit(5, 1, 1, ports_of(&[22])).unwrap();
    state.block_process(6, ports_of(&[23]));
    let cmds: Vec<String> = state.cleanup().iter().map(|c| format!("{} {}", c.program, c.args.join(" "))).collect();
    assert_eq!(
        cmds,
        vec![
            command_text("pfctl", &["-a", "netguard", "-F", "all"]),
            command_text("dnctl", &["pipe", "10000", "delete"]),
            command_text("dnctl", &["pipe", "10001", "delete"]),
            command_text("dnctl", &["-f", "flush"]),
        ]
    );
    assert_eq!(state.pipe_count(), 0);
    assert_eq!(state.blocked_count(), 0);
}

#[test]
fn register_anchor_enables_filter_once() {
    let mut state = PfState::new();
    let cmds = state.register_anchor("Status: Disabled");
    assert_eq!(cmds.len(), 1);
    assert_eq!(cmds[0].program, "pfctl");
    assert_eq!(cmds[0].args, vec!["-e".to_string()]);
    assert!(state.anchor_registered());
    assert!(state.register_anchor("Status: Disabled").is_empty());
    let mut enabled = PfState::new();
    assert!(enabled.register_anchor("Status: Enabled for 3 days").is_empty());
}

#[test]
fn sniff_needs_no_rules() {
    assert!(start_sniff().is_ok());
}

#[test]
fn sync_reconciles_limits_and_blocks() {
    let mut handle = PfHandle::new();
    let mut limits = HashMap::new();
    limits.insert(10, BandwidthLimit { download_bps: 1000, upload_bps: 500 });
    limits.insert(11, BandwidthLimit { download_bps: 1000, upload_bps: 500 });
    let blocked = vec![20];
    let mut ports = HashMap::new();
    ports.insert(10, ports_of(&[8080]));
    ports.insert(20, ports_of(&[9090]));
    let plan = sync_pf_state(&mut handle, &limits, &blocked, &ports);
    let rules = plan.rules.unwrap();
    assert!(rules.contains("port { 8080 } pipe 10000"));
    assert!(rules.contains("block drop in proto { tcp, udp } from any to any port { 9090 }"));
    assert_eq!(plan.commands.len(), 2);
    // Nothing changed: nothing to do.
    let again = sync_pf_state(&mut handle, &limits, &blocked, &ports);
    assert!(again.rules.is_none() && again.commands.is_empty());
    // Limits and blocks withdrawn: pipes deleted and rules emptied.
    let gone = sync_pf_state(&mut handle, &HashMap::new(), &vec![], &ports);
    assert_eq!(gone.commands.len(), 2);
    assert!(!gone.rules.unwrap().contains("dummynet"));
}

#[test]
fn sync_keeps_reconciled_pairs_and_allocates_once_per_process() {
    let mut handle = PfHandle::new();
    let mut limits = HashMap::new();
    limits.insert(10, BandwidthLimit { download_bps: 1000, upload_bps: 500 });
    let mut ports = HashMap::new();
    ports.insert(10, ports_of(&[8080]));
    sync_pf_state(&mut handle, &limits, &vec![], &ports);
    // A second limited process: the first keeps pipes 10000/10001.
    limits.insert(11, BandwidthLimit { download_bps: 10, upload_bps: 10 });
    ports.insert(11, ports_of(&[9000]));
    let plan = sync_pf_state(&mut handle, &limits, &vec![], &ports);
    assert_eq!(plan.commands.len(), 2);
    let rules = plan.rules.unwrap();
    assert!(rules.contains("port { 8080 } pipe 10000"));
    assert!(rules.contains("port { 9000 } pipe 10002"));
    // A changed rate reconfigures the same pipes.
    limits.insert(10, BandwidthLimit { download_bps: 2000, upload_bps: 500 });
    let again = sync_pf_state(&mut handle, &limits, &vec![], &ports);
    assert_eq!(again.commands.len(), 2);
    assert_eq!(again.commands[0].args[1], "10000");
    let none = sync_pf_state(&mut handle, &limits, &vec![], &ports);
    assert!(none.rules.is_none() && none.commands.is_empty());
}
