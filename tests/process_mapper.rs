use netguard::capture::Protocol;
use netguard::net_table::{decode_tcp6_table, decode_tcp_table, decode_udp_table};
use netguard::process_mapper::{PortOwner, ProcessInfo, ProcessMapper};

#[test]
fn test_new_mapper_empty() {
    let mapper = ProcessMapper::new();
    assert_eq!(mapper.lookup_pid(Protocol::Tcp, 80), None, "empty mapper should return None for TCP port 80");
    assert_eq!(mapper.lookup_pid(Protocol::Udp, 53), None, "empty mapper should return None for UDP port 53");
}

#[test]
fn test_get_process_info_unknown_pid() {
    let mapper = ProcessMapper::new();
    assert!(mapper.get_process_info(12345).is_none(), "unknown PID should return None");
    assert!(mapper.get_process_info(0).is_none(), "PID 0 should return None on empty mapper");
}

#[test]
fn test_connection_counts_empty() {
    let mapper = ProcessMapper::new();
    let counts = mapper.connection_counts();
    assert!(counts.is_empty(), "empty mapper should have no connection counts");
}

#[test]
fn refresh_replaces_the_whole_port_map() {
    let mut mapper = ProcessMapper::new();
    mapper.replace_port_map(&vec![
        PortOwner { protocol: Protocol::Tcp, port: 80, pid: 1 },
        PortOwner { protocol: Protocol::Udp, port: 53, pid: 2 },
    ]);
    assert_eq!(mapper.lookup_pid(Protocol::Tcp, 80), Some(1));
    assert_eq!(mapper.lookup_pid(Protocol::Udp, 80), None);
    mapper.replace_port_map(&vec![PortOwner { protocol: Protocol::Tcp, port: 443, pid: 3 }]);
    assert_eq!(mapper.lookup_pid(Protocol::Tcp, 80), None, "closed port no longer resolves");
    assert_eq!(mapper.lookup_pid(Protocol::Udp, 53), None);
    assert_eq!(mapper.lookup_pid(Protocol::Tcp, 443), Some(3), "opened port resolves");
}

#[test]
fn connection_counts_per_owner() {
    let mut mapper = ProcessMapper::new();
    mapper.replace_port_map(&vec![
        PortOwner { protocol: Protocol::Tcp, port: 80, pid: 1 },
        PortOwner { protocol: Protocol::Tcp, port: 81, pid: 1 },
        PortOwner { protocol: Protocol::Udp, port: 80, pid: 1 },
        PortOwner { protocol: Protocol::Udp, port: 53, pid: 2 },
    ]);
    let counts = mapper.connection_counts();
    assert_eq!(counts.len(), 2);
    assert_eq!(counts[&1], 3);
    assert_eq!(counts[&2], 1);
}

#[test]
fn process_info_keeps_path_and_takes_new_name() {
    let mut mapper = ProcessMapper::new();
    mapper.refresh_process_info(&vec![(
        7,
        ProcessInfo { name: "old".to_string(), exe_path: "/bin/a".to_string() },
    )]);
    mapper.refresh_process_info(&vec![(
        7,
        ProcessInfo { name: "new".to_string(), exe_path: "/bin/b".to_string() },
    )]);
    let info = mapper.get_process_info(7).unwrap();
    assert_eq!(info.name, "new");
    assert_eq!(info.exe_path, "/bin/a");
}

fn tcp_row(port: u16, pid: u32) -> Vec<u8> {
    let mut row = vec![0u8; 24];
    row[8] = (port >> 8) as u8;
    row[9] = (port & 0xFF) as u8;
    row[20..24].copy_from_slice(&pid.to_le_bytes());
    row
}

#[test]
fn decode_tcp_table_skips_zero_port_and_pid() {
    let mut buf = 3u32.to_le_bytes().to_vec();
    buf.extend(tcp_row(8080, 42));
    buf.extend(tcp_row(0, 42));
    buf.extend(tcp_row(443, 0));
    let rows = decode_tcp_table(&buf);
    assert_eq!(rows, vec![PortOwner { protocol: Protocol::Tcp, port: 8080, pid: 42 }]);
}

#[test]
fn decode_table_stops_at_buffer_end() {
    let mut buf = 5u32.to_le_bytes().to_vec();
    buf.extend(tcp_row(1, 1));
    buf.extend(tcp_row(2, 2));
    buf.extend(vec![0u8; 10]);
    assert_eq!(decode_tcp_table(&buf).len(), 2);
    assert!(decode_tcp_table(&[1, 0]).is_empty());
}

#[test]
fn decode_udp_and_tcp6_layouts() {
    let mut udp = 1u32.to_le_bytes().to_vec();
    let mut row = vec![0u8; 12];
    row[4] = 0x00;
    row[5] = 0x35;
    row[8..12].copy_from_slice(&9u32.to_le_bytes());
    udp.extend(row);
    assert_eq!(decode_udp_table(&udp), vec![PortOwner { protocol: Protocol::Udp, port: 53, pid: 9 }]);

    let mut tcp6 = 1u32.to_le_bytes().to_vec();
    let mut row6 = vec![0u8; 56];
    row6[20] = 0x01;
    row6[21] = 0xBB;
    row6[52..56].copy_from_slice(&77u32.to_le_bytes());
    tcp6.extend(row6);
    assert_eq!(decode_tcp6_table(&tcp6), vec![PortOwner { protocol: Protocol::Tcp, port: 443, pid: 77 }]);
}

#[test]
fn failed_table_query_keeps_previous_map() {
    let mut mapper = ProcessMapper::new();
    let mut tcp = 1u32.to_le_bytes().to_vec();
    tcp.extend(tcp_row(8080, 5));
    let empty = 0u32.to_le_bytes().to_vec();
    mapper.refresh_port_map(Some(&tcp), Some(&empty), Some(&empty), Some(&empty));
    assert_eq!(mapper.lookup_pid(Protocol::Tcp, 8080), Some(5));
    mapper.refresh_port_map(Some(&empty), None, Some(&empty), Some(&empty));
    assert_eq!(mapper.lookup_pid(Protocol::Tcp, 8080), Some(5));
    mapper.refresh_port_map(Some(&empty), Some(&empty), Some(&empty), Some(&empty));
    assert_eq!(mapper.lookup_pid(Protocol::Tcp, 8080), None);
}
