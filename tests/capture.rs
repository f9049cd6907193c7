use netguard::capture::{
    next_loop_action, parse_ip_packet, process_sniff_packet, should_pass_packet_at, CaptureMode, LoopAction,
    Protocol, Received,
};
use netguard::process_mapper::{PortOwner, ProcessMapper};
use netguard::rate_limiter::{BandwidthLimit, RateLimiterManager};
use netguard::traffic::TrafficTracker;

/// A minimal IPv4 packet: 20-byte header and the two ports.
fn build_ipv4_packet(protocol: u8, src_port: u16, dst_port: u16) -> Vec<u8> {
    let total_length: u16 = 24;
    let mut pkt = vec![0u8; total_length as usize];
    pkt[0] = 0x45;
    pkt[2] = (total_length >> 8) as u8;
    pkt[3] = (total_length & 0xFF) as u8;
    pkt[9] = protocol;
    pkt[20] = (src_port >> 8) as u8;
    pkt[21] = (src_port & 0xFF) as u8;
    pkt[22] = (dst_port >> 8) as u8;
    pkt[23] = (dst_port & 0xFF) as u8;
    pkt
}

/// A minimal IPv6 packet: 40-byte header and the two ports.
fn build_ipv6_packet(next_header: u8, src_port: u16, dst_port: u16) -> Vec<u8> {
    let payload_length: u16 = 4;
    let total_length = 40 + payload_length as usize;
    let mut pkt = vec![0u8; total_length];
    pkt[0] = 0x60;
    pkt[4] = (payload_length >> 8) as u8;
    pkt[5] = (payload_length & 0xFF) as u8;
    pkt[6] = next_header;
    pkt[40] = (src_port >> 8) as u8;
    pkt[41] = (src_port & 0xFF) as u8;
    pkt[42] = (dst_port >> 8) as u8;
    pkt[43] = (dst_port & 0xFF) as u8;
    pkt
}

#[test]
fn test_parse_empty_packet() {
    assert!(parse_ip_packet(&[]).is_none());
}

#[test]
fn test_parse_too_short_ipv4() {
    let pkt = vec![0x45u8; 19];
    assert!(parse_ip_packet(&pkt).is_none());
}

#[test]
fn test_parse_valid_tcp_ipv4() {
    let pkt = build_ipv4_packet(6, 12345, 443);
    let result = parse_ip_packet(&pkt);
    assert!(result.is_some());
    let (proto, src, dst, len) = result.unwrap();
    assert_eq!(proto, Protocol::Tcp);
    assert_eq!(src, 12345);
    assert_eq!(dst, 443);
    assert_eq!(len, 24);
}

#[test]
fn test_parse_valid_udp_ipv4() {
    let pkt = build_ipv4_packet(17, 5353, 53);
    let result = parse_ip_packet(&pkt);
    assert!(result.is_some());
    let (proto, src, dst, len) = result.unwrap();
    assert_eq!(proto, Protocol::Udp);
    assert_eq!(src, 5353);
    assert_eq!(dst, 53);
    assert_eq!(len, 24);
}

#[test]
fn test_parse_valid_tcp_ipv6() {
    let pkt = build_ipv6_packet(6, 8080, 80);
    let result = parse_ip_packet(&pkt);
    assert!(result.is_some());
    let (proto, src, dst, len) = result.unwrap();
    assert_eq!(proto, Protocol::Tcp);
    assert_eq!(src, 8080);
    assert_eq!(dst, 80);
    assert_eq!(len, 44);
}

#[test]
fn test_parse_unknown_protocol() {
    let pkt = build_ipv4_packet(1, 0, 0);
    assert!(parse_ip_packet(&pkt).is_none());
}

#[test]
fn test_parse_truncated_transport() {
    let mut pkt = vec![0u8; 22];
    pkt[0] = 0x45;
    pkt[9] = 6;
    assert!(parse_ip_packet(&pkt).is_none());
}

#[test]
fn parse_ipv4_with_options_reads_ports_after_header() {
    // Header length 6 words: the ports start at byte 24.
    let mut pkt = vec![0u8; 28];
    pkt[0] = 0x46;
    pkt[2] = 0x05;
    pkt[3] = 0xDC;
    pkt[9] = 17;
    pkt[24] = 0x1F;
    pkt[25] = 0x90;
    pkt[26] = 0x00;
    pkt[27] = 0x35;
    assert_eq!(parse_ip_packet(&pkt), Some((Protocol::Udp, 8080, 53, 1500)));
}

#[test]
fn parse_ipv6_too_short_and_unknown_version() {
    let mut pkt = vec![0u8; 39];
    pkt[0] = 0x60;
    pkt[6] = 6;
    assert!(parse_ip_packet(&pkt).is_none());
    let mut other = build_ipv4_packet(6, 1, 2);
    other[0] = 0x55;
    assert!(parse_ip_packet(&other).is_none());
}

#[test]
fn sniffed_outbound_packet_counts_as_sent_bytes() {
    let mut mapper = ProcessMapper::new();
    mapper.replace_port_map(&vec![PortOwner { protocol: Protocol::Tcp, port: 12345, pid: 7 }]);
    let mut tracker = TrafficTracker::new();
    let pkt = build_ipv4_packet(6, 12345, 443);
    process_sniff_packet(&mapper, &mut tracker, &pkt, true);
    let snap = tracker.snapshot(&mapper);
    assert_eq!(snap.len(), 1);
    assert_eq!(snap[0].pid, 7);
    assert_eq!(snap[0].bytes_sent, 24);
    assert_eq!(snap[0].bytes_recv, 0);
}

#[test]
fn sniffed_inbound_packet_uses_destination_port() {
    let mut mapper = ProcessMapper::new();
    mapper.replace_port_map(&vec![PortOwner { protocol: Protocol::Tcp, port: 443, pid: 9 }]);
    let mut tracker = TrafficTracker::new();
    let pkt = build_ipv4_packet(6, 12345, 443);
    process_sniff_packet(&mapper, &mut tracker, &pkt, false);
    let snap = tracker.snapshot(&mapper);
    assert_eq!(snap.len(), 1);
    assert_eq!(snap[0].pid, 9);
    assert_eq!(snap[0].bytes_recv, 24);
    assert_eq!(snap[0].bytes_sent, 0);
}

#[test]
fn unattributed_packets_are_not_counted_and_pass() {
    let mapper = ProcessMapper::new();
    let mut tracker = TrafficTracker::new();
    let mut limiter = RateLimiterManager::new();
    let pkt = build_ipv4_packet(6, 12345, 443);
    process_sniff_packet(&mapper, &mut tracker, &pkt, true);
    assert!(tracker.snapshot(&mapper).is_empty());
    assert!(should_pass_packet_at(&mapper, &mut limiter, &pkt, true, 0));
    assert!(should_pass_packet_at(&mapper, &mut limiter, &[0u8; 3], true, 0));
}

#[test]
fn intercept_decision_polices_the_owner() {
    let mut mapper = ProcessMapper::new();
    mapper.replace_port_map(&vec![PortOwner { protocol: Protocol::Tcp, port: 12345, pid: 7 }]);
    let mut limiter = RateLimiterManager::new();
    limiter.set_limit(7, BandwidthLimit { download_bps: 10, upload_bps: 10 });
    let pkt = build_ipv4_packet(6, 12345, 443);
    // Upload burst is 20 bytes: the 24-byte packet is refused.
    assert!(!should_pass_packet_at(&mapper, &mut limiter, &pkt, true, 0));
    limiter.block_process(7);
    limiter.set_limit(7, BandwidthLimit { download_bps: 1000, upload_bps: 1000 });
    assert!(!should_pass_packet_at(&mapper, &mut limiter, &pkt, true, 0));
    limiter.unblock_process(7);
    // The raised limit keeps the 20 bytes left; one second refills 1000.
    assert!(should_pass_packet_at(&mapper, &mut limiter, &pkt, true, 1_000_000));
}

#[test]
fn capture_loop_steps() {
    let sniff = CaptureMode::Sniff;
    let intercept = CaptureMode::Intercept("tcp or udp".to_string());
    assert_eq!(next_loop_action(&sniff, Received::Packet { pass: false }, false), LoopAction::Observe);
    assert_eq!(next_loop_action(&intercept, Received::Packet { pass: true }, false), LoopAction::Reinject);
    assert_eq!(next_loop_action(&intercept, Received::Packet { pass: false }, false), LoopAction::Discard);
    assert_eq!(next_loop_action(&intercept, Received::Error, false), LoopAction::BackOff);
    assert_eq!(next_loop_action(&sniff, Received::Error, true), LoopAction::Exit);
}
