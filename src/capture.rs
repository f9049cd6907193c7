//! IP header parsing and the per-packet accounting and policing decisions.

use vstd::prelude::*;

use crate::clock::now_micros;
use crate::process_mapper::{port_key, ProcessMapper};
use crate::rate_limiter::{policer_outcome, RateLimiterManager};
use crate::traffic::{recorded, TrafficTracker};

verus! {

/// Transport protocol of a packet or a socket.
#[derive(Clone, Copy, Debug, PartialEq, Eq, Hash, Structural)]
pub enum Protocol {
    Tcp,
    Udp,
}

/// Capture operating mode.
#[derive(Clone, Debug)]
pub enum CaptureMode {
    /// Read-only packet copies: traffic is observed, never altered.
    Sniff,
    /// Packets are diverted and re-injected; the string is the platform
    /// filter expression handed to the capture API.
    Intercept(String),
}

/// Big-endian value of two bytes.
pub open spec fn be16(hi: u8, lo: u8) -> int {
    hi as int * 256 + lo as int
}

/// The transport protocol that an IP protocol number stands for.
pub open spec fn protocol_of(b: u8) -> Option<Protocol> {
    if b == 6 {
        Some(Protocol::Tcp)
    } else if b == 17 {
        Some(Protocol::Udp)
    } else {
        None
    }
}

/// The ports that follow a transport header starting at `hl`, with the
/// protocol and the total length already known.
pub open spec fn ports_after(d: Seq<u8>, hl: int, p: Protocol, total: int) -> Option<
    (Protocol, u16, u16, u64),
> {
    if d.len() < hl + 4 {
        None
    } else {
        Some((p, be16(d[hl], d[hl + 1]) as u16, be16(d[hl + 2], d[hl + 3]) as u16, total as u64))
    }
}

/// What a raw IP datagram parses to: protocol, source port, destination
/// port and the total length its header declares.
pub open spec fn parse_spec(d: Seq<u8>) -> Option<(Protocol, u16, u16, u64)> {
    if d.len() == 0 {
        None
    } else if d[0] / 16 == 4 {
        if d.len() < 20 {
            None
        } else {
            match protocol_of(d[9]) {
                None => None,
                Some(p) => ports_after(d, (d[0] % 16) as int * 4, p, be16(d[2], d[3])),
            }
        }
    } else if d[0] / 16 == 6 {
        if d.len() < 40 {
            None
        } else {
            match protocol_of(d[6]) {
                None => None,
                Some(p) => ports_after(d, 40, p, be16(d[4], d[5]) + 40),
            }
        }
    } else {
        None
    }
}

/// The IP protocol number of a transport protocol.
pub open spec fn protocol_number(p: Protocol) -> u8 {
    match p {
        Protocol::Tcp => 6,
        Protocol::Udp => 17,
    }
}

/// The two big-endian bytes of a 16-bit value.
pub open spec fn be_bytes(v: u16) -> Seq<u8> {
    seq![(v / 256) as u8, (v % 256) as u8]
}

/// A datagram built from an IP header, the two transport ports and any
/// further bytes.
pub open spec fn datagram(header: Seq<u8>, src: u16, dst: u16, rest: Seq<u8>) -> Seq<u8> {
    header + be_bytes(src) + be_bytes(dst) + rest
}

proof fn lemma_be_bytes(v: u16)
    ensures
        be_bytes(v).len() == 2,
        be16(be_bytes(v)[0], be_bytes(v)[1]) == v,
{
}

/// Round trip over IPv4: a datagram whose 20-byte header has version 4,
/// header length 5 words, the protocol number of `p` and the declared total
/// length `total`, followed by the two ports, parses to exactly that
/// protocol, those ports and that length.
pub proof fn lemma_ipv4_round_trip(
    header: Seq<u8>,
    p: Protocol,
    src: u16,
    dst: u16,
    total: u16,
    rest: Seq<u8>,
)
    requires
        header.len() == 20,
        header[0] == 0x45,
        header[9] == protocol_number(p),
        be16(header[2], header[3]) == total,
    ensures
        parse_spec(datagram(header, src, dst, rest)) == Some((p, src, dst, total as u64)),
{
    lemma_be_bytes(src);
    lemma_be_bytes(dst);
    let d = datagram(header, src, dst, rest);
    assert(d[0] == header[0]);
    assert(d[2] == header[2] && d[3] == header[3] && d[9] == header[9]);
    assert(d[20] == be_bytes(src)[0] && d[21] == be_bytes(src)[1]);
    assert(d[22] == be_bytes(dst)[0] && d[23] == be_bytes(dst)[1]);
}

/// Round trip over IPv6: a datagram whose 40-byte header has version 6,
/// the protocol number of `p` as next header and payload length `payload`,
/// followed by the two ports, parses to that protocol, those ports and a
/// total length of `payload + 40`.
pub proof fn lemma_ipv6_round_trip(
    header: Seq<u8>,
    p: Protocol,
    src: u16,
    dst: u16,
    payload: u16,
    rest: Seq<u8>,
)
    requires
        header.len() == 40,
        header[0] / 16 == 6,
        header[6] == protocol_number(p),
        be16(header[4], header[5]) == payload,
    ensures
        parse_spec(datagram(header, src, dst, rest)) == Some(
            (p, src, dst, (payload as int + 40) as u64),
        ),
{
    lemma_be_bytes(src);
    lemma_be_bytes(dst);
    let d = datagram(header, src, dst, rest);
    assert(d[0] == header[0]);
    assert(d[4] == header[4] && d[5] == header[5] && d[6] == header[6]);
    assert(d[40] == be_bytes(src)[0] && d[41] == be_bytes(src)[1]);
    assert(d[42] == be_bytes(dst)[0] && d[43] == be_bytes(dst)[1]);
}

/// Malformed input is never attributed: a header shorter than its
/// version's minimum, an unknown protocol number, or fewer than four
/// transport bytes after the header all parse to `None`.
pub proof fn lemma_malformed_rejected(d: Seq<u8>)
    ensures
        d.len() < 20 ==> parse_spec(d) is None,
        d.len() > 0 && d[0] / 16 == 6 && d.len() < 40 ==> parse_spec(d) is None,
        d.len() >= 20 && d[0] / 16 == 4 && protocol_of(d[9]) is None ==> parse_spec(d) is None,
        d.len() >= 40 && d[0] / 16 == 6 && protocol_of(d[6]) is None ==> parse_spec(d) is None,
        d.len() >= 20 && d[0] / 16 == 4 && d.len() < (d[0] % 16) as int * 4 + 4 ==> parse_spec(
            d,
        ) is None,
        d.len() >= 40 && d[0] / 16 == 6 && d.len() < 44 ==> parse_spec(d) is None,
        d.len() > 0 && d[0] / 16 != 4 && d[0] / 16 != 6 ==> parse_spec(d) is None,
{
}

fn read_be16(data: &[u8], at: usize) -> (r: u16)
    requires
        at + 1 < data@.len(),
    ensures
        r as int == be16(data@[at as int], data@[at as int + 1]),
{
    (data[at] as u16) * 256 + (data[at + 1] as u16)
}

fn protocol_from_byte(b: u8) -> (r: Option<Protocol>)
    ensures
        r == protocol_of(b),
{
    if b == 6 {
        Some(Protocol::Tcp)
    } else if b == 17 {
        Some(Protocol::Udp)
    } else {
        None
    }
}

/// Parses an IP packet into (protocol, source port, destination port,
/// declared total length). Any shortfall or unknown version or protocol
/// gives `None`.
pub fn parse_ip_packet(data: &[u8]) -> (r: Option<(Protocol, u16, u16, u64)>)
    ensures
        r == parse_spec(data@),
{
    if data.len() == 0 {
        return None;
    }
    let version = data[0] / 16;
    let (proto_byte, header_len, total_len): (u8, usize, u64) = if version == 4 {
        if data.len() < 20 {
            return None;
        }
        let ihl: usize = ((data[0] % 16) as usize) * 4;
        (data[9], ihl, read_be16(data, 2) as u64)
    } else if version == 6 {
        if data.len() < 40 {
            return None;
        }
        (data[6], 40, read_be16(data, 4) as u64 + 40)
    } else {
        return None;
    };
    let proto = match protocol_from_byte(proto_byte) {
        Some(p) => p,
        None => return None,
    };
    if data.len() < header_len + 4 {
        return None;
    }
    let src_port = read_be16(data, header_len);
    let dst_port = read_be16(data, header_len + 2);
    Some((proto, src_port, dst_port, total_len))
}


/// The local port of a packet: its source port when outbound, its
/// destination port when inbound.
pub open spec fn local_port_of(src: u16, dst: u16, outbound: bool) -> u16 {
    if outbound {
        src
    } else {
        dst
    }
}

/// The process a packet is attributed to and its length, when the packet
/// parses and the directory knows its local port.
pub open spec fn attribution(ports: Map<(u8, u16), u32>, d: Seq<u8>, outbound: bool) -> Option<
    (u32, u64),
> {
    match parse_spec(d) {
        None => None,
        Some((p, src, dst, len)) => {
            let k = port_key(p, local_port_of(src, dst, outbound));
            if ports.contains_key(k) {
                Some((ports[k], len))
            } else {
                None
            }
        },
    }
}

/// The owner and length of a packet, if it can be attributed.
fn attribute(mapper: &ProcessMapper, data: &[u8], outbound: bool) -> (r: Option<(u32, u64)>)
    ensures
        r == attribution(mapper.ports(), data@, outbound),
{
    let (proto, src_port, dst_port, total_len) = match parse_ip_packet(data) {
        Some(t) => t,
        None => return None,
    };
    let local_port = if outbound {
        src_port
    } else {
        dst_port
    };
    match mapper.lookup_pid(proto, local_port) {
        Some(pid) => Some((pid, total_len)),
        None => None,
    }
}

/// Accounts one observed packet: its length goes to the sent bytes of the
/// owner of its source port when outbound, to the received bytes of the
/// owner of its destination port when inbound. Packets that do not parse
/// or whose port has no known owner are not counted.
pub fn process_sniff_packet(
    mapper: &ProcessMapper,
    tracker: &mut TrafficTracker,
    data: &[u8],
    outbound: bool,
)
    ensures
        match attribution(mapper.ports(), data@, outbound) {
            None => final(tracker).counters() == old(tracker).counters(),
            Some((pid, len)) => final(tracker).counters() == old(tracker).counters().insert(
                pid,
                recorded(
                    old(tracker).counters(),
                    pid,
                    if outbound {
                        len
                    } else {
                        0
                    },
                    if outbound {
                        0
                    } else {
                        len
                    },
                ),
            ),
        },
{
    match attribute(mapper, data, outbound) {
        Some((pid, len)) => {
            if outbound {
                tracker.record_bytes(pid, len, 0);
            } else {
                tracker.record_bytes(pid, 0, len);
            }
        },
        None => {},
    }
}

/// Intercept decision at clock reading `now`: packets that do not parse or
/// have no known owner pass (fail open); the rest go to the policer, with
/// outbound packets on the upload bucket.
pub fn should_pass_packet_at(
    mapper: &ProcessMapper,
    rate_limiter: &mut RateLimiterManager,
    data: &[u8],
    outbound: bool,
    now: u64,
) -> (r: bool)
    requires
        old(rate_limiter).wf(),
    ensures
        final(rate_limiter).wf(),
        final(rate_limiter).limits() == old(rate_limiter).limits(),
        final(rate_limiter).blocked() == old(rate_limiter).blocked(),
        match attribution(mapper.ports(), data@, outbound) {
            None => r && final(rate_limiter).buckets() == old(rate_limiter).buckets(),
            Some((pid, len)) => (final(rate_limiter).buckets(), r) == policer_outcome(
                old(rate_limiter).blocked(),
                old(rate_limiter).buckets(),
                pid,
                len,
                outbound,
                now,
            ),
        },
{
    match attribute(mapper, data, outbound) {
        Some((pid, len)) => rate_limiter.should_pass_packet_at(pid, len, outbound, now),
        None => true,
    }
}

/// Intercept decision on the wall clock.
pub fn should_pass_packet(
    mapper: &ProcessMapper,
    rate_limiter: &mut RateLimiterManager,
    data: &[u8],
    outbound: bool,
) -> (r: bool)
    requires
        old(rate_limiter).wf(),
    ensures
        final(rate_limiter).wf(),
        final(rate_limiter).limits() == old(rate_limiter).limits(),
        final(rate_limiter).blocked() == old(rate_limiter).blocked(),
        attribution(mapper.ports(), data@, outbound) is None ==> r,
        match attribution(mapper.ports(), data@, outbound) {
            None => final(rate_limiter).buckets() == old(rate_limiter).buckets(),
            Some((pid, len)) => exists|now: u64|
                (final(rate_limiter).buckets(), r) == #[trigger] policer_outcome(
                    old(rate_limiter).blocked(),
                    old(rate_limiter).buckets(),
                    pid,
                    len,
                    outbound,
                    now,
                ),
        },
{
    let now = now_micros();
    should_pass_packet_at(mapper, rate_limiter, data, outbound, now)
}

/// What one receive of the capture loop brought.
#[derive(Clone, Copy, Debug, PartialEq, Eq, Structural)]
pub enum Received {
    /// A packet, with the policer's decision on it; sniffing ignores it.
    Packet { pass: bool },
    /// The receive failed.
    Error,
}

/// What the capture loop does next.
#[derive(Clone, Copy, Debug, PartialEq, Eq, Structural)]
pub enum LoopAction {
    /// The copy has been accounted; nothing is sent.
    Observe,
    /// Send the packet on.
    Reinject,
    /// Silently drop the packet.
    Discard,
    /// Wait briefly, then receive again.
    BackOff,
    /// Leave the loop.
    Exit,
}

/// The capture loop's decision: a sniffed packet is only observed; an
/// intercepted one is sent on when it passes and dropped otherwise; a
/// failed receive ends the loop during shutdown and is retried after a
/// pause otherwise.
pub open spec fn loop_action(intercepting: bool, received: Received, shutting_down: bool) -> LoopAction {
    match received {
        Received::Packet { pass } => if !intercepting {
            LoopAction::Observe
        } else if pass {
            LoopAction::Reinject
        } else {
            LoopAction::Discard
        },
        Received::Error => if shutting_down {
            LoopAction::Exit
        } else {
            LoopAction::BackOff
        },
    }
}

/// The capture loop's next step in the given mode.
pub fn next_loop_action(mode: &CaptureMode, received: Received, shutting_down: bool) -> (r:
    LoopAction)
    ensures
        r == loop_action(mode is Intercept, received, shutting_down),
{
    let intercepting = match mode {
        CaptureMode::Sniff => false,
        CaptureMode::Intercept(_) => true,
    };
    match received {
        Received::Packet { pass } => {
            if !intercepting {
                LoopAction::Observe
            } else if pass {
                LoopAction::Reinject
            } else {
                LoopAction::Discard
            }
        },
        Received::Error => {
            if shutting_down {
                LoopAction::Exit
            } else {
                LoopAction::BackOff
            }
        },
    }
}

} // verus!
