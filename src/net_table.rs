//! Decoding of the operating system's TCP and UDP owner tables (IPv4 and
//! IPv6) into (protocol, local port, owning process) rows.
//!
//! A table is a little-endian 32-bit row count followed by fixed-size rows.
//! In each row the local port is kept in network byte order in the low
//! bytes of a 32-bit field, and the owning process id is a little-endian
//! 32-bit field.

use vstd::prelude::*;

use crate::capture::{be16, Protocol};
use crate::process_mapper::PortOwner;

verus! {

/// A row of the IPv4 TCP owner table.
#[derive(Clone, Copy, Debug)]
pub struct MibTcpRowOwnerPid {
    pub state: u32,
    pub local_addr: u32,
    pub local_port: u32,
    pub remote_addr: u32,
    pub remote_port: u32,
    pub owning_pid: u32,
}

/// A row of the IPv4 UDP owner table.
#[derive(Clone, Copy, Debug)]
pub struct MibUdpRowOwnerPid {
    pub local_addr: u32,
    pub local_port: u32,
    pub owning_pid: u32,
}

/// A row of the IPv6 TCP owner table.
#[derive(Clone, Copy, Debug)]
pub struct MibTcp6RowOwnerPid {
    pub local_addr: [u8; 16],
    pub local_scope_id: u32,
    pub local_port: u32,
    pub remote_addr: [u8; 16],
    pub remote_scope_id: u32,
    pub remote_port: u32,
    pub state: u32,
    pub owning_pid: u32,
}

/// A row of the IPv6 UDP owner table.
#[derive(Clone, Copy, Debug)]
pub struct MibUdp6RowOwnerPid {
    pub local_addr: [u8; 16],
    pub local_scope_id: u32,
    pub local_port: u32,
    pub owning_pid: u32,
}

/// Row size and the offsets of the local port and the owner in each table.
pub const TCP_ROW_SIZE: usize = 24;
pub const TCP_PORT_OFFSET: usize = 8;
pub const TCP_PID_OFFSET: usize = 20;
pub const UDP_ROW_SIZE: usize = 12;
pub const UDP_PORT_OFFSET: usize = 4;
pub const UDP_PID_OFFSET: usize = 8;
pub const TCP6_ROW_SIZE: usize = 56;
pub const TCP6_PORT_OFFSET: usize = 20;
pub const TCP6_PID_OFFSET: usize = 52;
pub const UDP6_ROW_SIZE: usize = 28;
pub const UDP6_PORT_OFFSET: usize = 20;
pub const UDP6_PID_OFFSET: usize = 24;

/// Little-endian value of four bytes from `at`.
pub open spec fn le32(b: Seq<u8>, at: int) -> int {
    b[at] as int + b[at + 1] as int * 256 + b[at + 2] as int * 65536 + b[at + 3] as int * 16777216
}

/// The number of whole rows the table holds: its declared count, cut to
/// what the buffer holds.
pub open spec fn row_count(b: Seq<u8>, row: int) -> int {
    if b.len() < 4 {
        0
    } else {
        let declared = le32(b, 0);
        let fits = (b.len() - 4) / row;
        if declared < fits {
            declared
        } else {
            fits
        }
    }
}

/// The rows among the first `k` whose port and owner are both nonzero.
pub open spec fn decoded_rows(
    b: Seq<u8>,
    row: int,
    port_at: int,
    pid_at: int,
    p: Protocol,
    k: int,
) -> Seq<PortOwner>
    decreases k,
{
    if k <= 0 {
        Seq::empty()
    } else {
        let off = 4 + (k - 1) * row;
        let port = be16(b[off + port_at], b[off + port_at + 1]);
        let pid = le32(b, off + pid_at);
        let rest = decoded_rows(b, row, port_at, pid_at, p, k - 1);
        if port > 0 && pid > 0 {
            rest.push(PortOwner { protocol: p, port: port as u16, pid: pid as u32 })
        } else {
            rest
        }
    }
}

/// All owned ports of a table.
pub open spec fn table_rows(b: Seq<u8>, row: int, port_at: int, pid_at: int, p: Protocol) -> Seq<
    PortOwner,
> {
    decoded_rows(b, row, port_at, pid_at, p, row_count(b, row))
}

fn read_le32(b: &[u8], at: usize) -> (r: u32)
    requires
        at + 4 <= b@.len(),
    ensures
        r as int == le32(b@, at as int),
{
    (b[at] as u32) + (b[at + 1] as u32) * 256 + (b[at + 2] as u32) * 65536 + (b[at + 3] as u32)
        * 16777216
}

/// Decodes an owner table with the given row layout.
pub fn decode_owner_table(
    buf: &[u8],
    row_size: usize,
    port_offset: usize,
    pid_offset: usize,
    protocol: Protocol,
) -> (r: Vec<PortOwner>)
    requires
        row_size > 0,
        port_offset + 2 <= row_size,
        pid_offset + 4 <= row_size,
    ensures
        r@ == table_rows(buf@, row_size as int, port_offset as int, pid_offset as int, protocol),
{
    let mut out: Vec<PortOwner> = Vec::new();
    if buf.len() < 4 {
        return out;
    }
    let declared = read_le32(buf, 0) as usize;
    let fits = (buf.len() - 4) / row_size;
    let count = if declared < fits {
        declared
    } else {
        fits
    };
    assert(count == row_count(buf@, row_size as int));
    let blen: usize = buf.len();
    let mut i: usize = 0;
    while i < count
        invariant
            blen == buf@.len(),
            i <= count,
            count <= (buf@.len() - 4) / (row_size as int),
            buf@.len() >= 4,
            row_size > 0,
            port_offset + 2 <= row_size,
            pid_offset + 4 <= row_size,
            out@ == decoded_rows(
                buf@,
                row_size as int,
                port_offset as int,
                pid_offset as int,
                protocol,
                i as int,
            ),
        decreases count - i,
    {
        assert(4 + i * row_size + row_size <= buf@.len()) by (nonlinear_arith)
            requires
                i < count,
                count <= (buf@.len() - 4) / (row_size as int),
                row_size > 0,
                buf@.len() >= 4,
        ;
        assert(i * row_size <= blen) by (nonlinear_arith)
            requires
                4 + i * row_size + row_size <= blen,
                row_size > 0,
        ;
        let off: usize = 4 + i * row_size;
        let port = read_be16_at(buf, off + port_offset);
        let pid = read_le32(buf, off + pid_offset);
        if port > 0 && pid > 0 {
            out.push(PortOwner { protocol, port, pid });
        }
        assert(off as int == 4 + ((i + 1) - 1) * row_size);
        i = i + 1;
    }
    out
}

fn read_be16_at(b: &[u8], at: usize) -> (r: u16)
    requires
        at + 2 <= b@.len(),
    ensures
        r as int == be16(b@[at as int], b@[at as int + 1]),
{
    (b[at] as u16) * 256 + (b[at + 1] as u16)
}

/// Rows of the IPv4 TCP owner table.
pub fn decode_tcp_table(buf: &[u8]) -> (r: Vec<PortOwner>)
    ensures
        r@ == table_rows(buf@, 24, 8, 20, Protocol::Tcp),
{
    decode_owner_table(buf, TCP_ROW_SIZE, TCP_PORT_OFFSET, TCP_PID_OFFSET, Protocol::Tcp)
}

/// Rows of the IPv4 UDP owner table.
pub fn decode_udp_table(buf: &[u8]) -> (r: Vec<PortOwner>)
    ensures
        r@ == table_rows(buf@, 12, 4, 8, Protocol::Udp),
{
    decode_owner_table(buf, UDP_ROW_SIZE, UDP_PORT_OFFSET, UDP_PID_OFFSET, Protocol::Udp)
}

/// Rows of the IPv6 TCP owner table.
pub fn decode_tcp6_table(buf: &[u8]) -> (r: Vec<PortOwner>)
    ensures
        r@ == table_rows(buf@, 56, 20, 52, Protocol::Tcp),
{
    decode_owner_table(buf, TCP6_ROW_SIZE, TCP6_PORT_OFFSET, TCP6_PID_OFFSET, Protocol::Tcp)
}

/// Rows of the IPv6 UDP owner table.
pub fn decode_udp6_table(buf: &[u8]) -> (r: Vec<PortOwner>)
    ensures
        r@ == table_rows(buf@, 28, 20, 24, Protocol::Udp),
{
    decode_owner_table(buf, UDP6_ROW_SIZE, UDP6_PORT_OFFSET, UDP6_PID_OFFSET, Protocol::Udp)
}

/// All rows of one refresh: IPv4 TCP, IPv4 UDP, IPv6 TCP, then IPv6 UDP.
pub open spec fn all_rows(tcp: Seq<u8>, udp: Seq<u8>, tcp6: Seq<u8>, udp6: Seq<u8>) -> Seq<PortOwner> {
    table_rows(tcp, 24, 8, 20, Protocol::Tcp) + table_rows(udp, 12, 4, 8, Protocol::Udp)
        + table_rows(tcp6, 56, 20, 52, Protocol::Tcp) + table_rows(udp6, 28, 20, 24, Protocol::Udp)
}

/// Decodes the four tables of one refresh, in order.
pub fn decode_all_tables(tcp: &[u8], udp: &[u8], tcp6: &[u8], udp6: &[u8]) -> (r: Vec<PortOwner>)
    ensures
        r@ == all_rows(tcp@, udp@, tcp6@, udp6@),
{
    let mut rows = decode_tcp_table(tcp);
    let mut more = decode_udp_table(udp);
    rows.append(&mut more);
    let mut more6 = decode_tcp6_table(tcp6);
    rows.append(&mut more6);
    let mut more6u = decode_udp6_table(udp6);
    rows.append(&mut more6u);
    rows
}

} // verus!
