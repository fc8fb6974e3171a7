//! Reading the headers of captured Ethernet frames.

use vstd::prelude::*;
use vstd::slice::slice_subrange;

use crate::addr::{be_value, lemma_be4, lemma_be_bound, lemma_pow256, IpAddr, Ipv4Addr, Ipv6Addr};
use crate::monitor::procmap::Proto;

verus! {

/// Length of an Ethernet header.
pub const ETH_HEADER_LEN: usize = 14;

/// Packet type that the kernel gives a frame sent by this host.
pub const PACKET_OUTGOING: u8 = 4;

/// One parsed packet, seen from this host.
#[derive(Debug, Clone, Copy)]
pub struct Sample {
    pub proto: Proto,
    pub local_ip: IpAddr,
    pub local_port: u16,
    pub rem_ip: IpAddr,
    pub rem_port: u16,
    /// True if this host sent the packet (upload), false if it received it.
    pub outgoing: bool,
    /// Length of the IP packet, used for accounting.
    pub bytes: u64,
}

/// Whether the kernel marked a frame as sent by this host.
pub fn is_outgoing(pkttype: u8) -> (r: bool)
    ensures
        r == (pkttype == 4),
{
    pkttype == PACKET_OUTGOING
}

/// The transport protocols that are accounted for, by IP protocol number.
pub open spec fn transport_of(proto: u8) -> Option<Proto> {
    if proto == 6 {
        Some(Proto::Tcp)
    } else if proto == 17 {
        Some(Proto::Udp)
    } else {
        None
    }
}

/// A packet with its endpoints put as local and remote: the source is the local
/// one exactly in outgoing packets.
pub open spec fn oriented(
    proto: Proto,
    src: IpAddr,
    sport: u16,
    dst: IpAddr,
    dport: u16,
    outgoing: bool,
    bytes: u64,
) -> Sample {
    Sample {
        proto,
        local_ip: if outgoing {
            src
        } else {
            dst
        },
        local_port: if outgoing {
            sport
        } else {
            dport
        },
        rem_ip: if outgoing {
            dst
        } else {
            src
        },
        rem_port: if outgoing {
            dport
        } else {
            sport
        },
        outgoing,
        bytes,
    }
}

/// The sixteen-bit number at an offset, most significant byte first.
pub open spec fn be16(d: Seq<u8>, at: int) -> u16 {
    (d[at] * 256 + d[at + 1]) as u16
}

/// The IPv4 address at an offset.
pub open spec fn v4_at(d: Seq<u8>, at: int) -> Ipv4Addr {
    Ipv4Addr { bits: be_value(d.subrange(at, at + 4)) as u32 }
}

/// The IPv6 address at an offset.
pub open spec fn v6_at(d: Seq<u8>, at: int) -> Ipv6Addr {
    Ipv6Addr { bits: be_value(d.subrange(at, at + 16)) as u128 }
}

/// Header length that an IPv4 packet states.
pub open spec fn ipv4_header_len(d: Seq<u8>) -> int {
    (d[0] % 16) * 4
}

/// Whether `d` is an IPv4 packet of TCP or UDP, complete up to the ports, with
/// neither end in the loopback range.
pub open spec fn is_counted_ipv4(d: Seq<u8>) -> bool {
    &&& d.len() >= 20
    &&& ipv4_header_len(d) >= 20
    &&& d.len() >= ipv4_header_len(d) + 4
    &&& transport_of(d[9]) is Some
    &&& d[12] != 127
    &&& d[16] != 127
}

/// What is read from an IPv4 packet.
pub open spec fn ipv4_sample(d: Seq<u8>, outgoing: bool) -> Option<Sample> {
    if is_counted_ipv4(d) {
        Some(
            oriented(
                transport_of(d[9])->0,
                IpAddr::V4(v4_at(d, 12)),
                be16(d, ipv4_header_len(d)),
                IpAddr::V4(v4_at(d, 16)),
                be16(d, ipv4_header_len(d) + 2),
                outgoing,
                be16(d, 2) as u64,
            ),
        )
    } else {
        None
    }
}

/// Whether `d` is an IPv6 packet whose first next header is TCP or UDP, complete
/// up to the ports, with neither end the loopback address.
pub open spec fn is_counted_ipv6(d: Seq<u8>) -> bool {
    &&& d.len() >= 44
    &&& transport_of(d[6]) is Some
    &&& v6_at(d, 8).bits != 1
    &&& v6_at(d, 24).bits != 1
}

/// What is read from an IPv6 packet. Its stated length leaves out the header.
pub open spec fn ipv6_sample(d: Seq<u8>, outgoing: bool) -> Option<Sample> {
    if is_counted_ipv6(d) {
        Some(
            oriented(
                transport_of(d[6])->0,
                IpAddr::V6(v6_at(d, 8)),
                be16(d, 40),
                IpAddr::V6(v6_at(d, 24)),
                be16(d, 42),
                outgoing,
                (40 + be16(d, 4)) as u64,
            ),
        )
    } else {
        None
    }
}

/// What is read from an Ethernet frame.
pub open spec fn frame_sample(buf: Seq<u8>, outgoing: bool) -> Option<Sample> {
    if buf.len() < 14 {
        None
    } else if be16(buf, 12) == 0x0800 {
        ipv4_sample(buf.skip(14), outgoing)
    } else if be16(buf, 12) == 0x86DD {
        ipv6_sample(buf.skip(14), outgoing)
    } else {
        None
    }
}

fn read16(d: &[u8], at: usize) -> (r: u16)
    requires
        at + 2 <= d@.len(),
    ensures
        r == be16(d@, at as int),
{
    let n: usize = d.len();
    assert(at + 1 < n);
    (d[at] as u16) * 256 + (d[at + 1] as u16)
}

fn read_v4(d: &[u8], at: usize) -> (r: Ipv4Addr)
    requires
        at + 4 <= d@.len(),
    ensures
        r == v4_at(d@, at as int),
        r.bits / 0x100_0000 == d@[at as int],
{
    let n: usize = d.len();
    assert(at + 3 < n);
    let r: Ipv4Addr = Ipv4Addr::new(d[at], d[at + 1], d[at + 2], d[at + 3]);
    assert(d@.subrange(at as int, at + 4) =~= seq![
        d@[at as int],
        d@[at + 1],
        d@[at + 2],
        d@[at + 3],
    ]);
    r
}

/// Parse an Ethernet frame, or `None` if it is not an attributable TCP or UDP
/// packet (loopback is dropped so that local traffic is not counted twice).
pub fn parse_frame(buf: &[u8], outgoing: bool) -> (r: Option<Sample>)
    ensures
        r == frame_sample(buf@, outgoing),
{
    if buf.len() < ETH_HEADER_LEN {
        return None;
    }
    let ethertype: u16 = read16(buf, 12);
    let l3: &[u8] = slice_subrange(buf, ETH_HEADER_LEN, buf.len());
    assert(l3@ =~= buf@.skip(14));
    if ethertype == 0x0800 {
        parse_ipv4(l3, outgoing)
    } else if ethertype == 0x86DD {
        parse_ipv6(l3, outgoing)
    } else {
        None
    }
}

/// Parse an IPv4 packet.
pub fn parse_ipv4(d: &[u8], outgoing: bool) -> (r: Option<Sample>)
    ensures
        r == ipv4_sample(d@, outgoing),
{
    if d.len() < 20 {
        return None;
    }
    let ihl: usize = (d[0] % 16) as usize * 4;
    if ihl < 20 || d.len() < ihl {
        return None;
    }
    let total_len: u64 = read16(d, 2) as u64;
    let src: Ipv4Addr = read_v4(d, 12);
    let dst: Ipv4Addr = read_v4(d, 16);
    if src.is_loopback() || dst.is_loopback() {
        return None;
    }
    let proto: Proto = match transport(d[9]) {
        Some(p) => p,
        None => {
            return None;
        },
    };
    match ports(slice_subrange(d, ihl, d.len())) {
        Some((sport, dport)) => Some(
            orient(proto, IpAddr::V4(src), sport, IpAddr::V4(dst), dport, outgoing, total_len),
        ),
        None => None,
    }
}

/// Parse an IPv6 packet. Only the first next header is looked at.
pub fn parse_ipv6(d: &[u8], outgoing: bool) -> (r: Option<Sample>)
    ensures
        r == ipv6_sample(d@, outgoing),
{
    if d.len() < 40 {
        return None;
    }
    let proto: Proto = match transport(d[6]) {
        Some(p) => p,
        None => {
            return None;
        },
    };
    let payload_len: u64 = read16(d, 4) as u64;
    let src: Ipv6Addr = Ipv6Addr::from_bytes(d, 8);
    let dst: Ipv6Addr = Ipv6Addr::from_bytes(d, 24);
    if src.is_loopback() || dst.is_loopback() {
        return None;
    }
    match ports(slice_subrange(d, 40, d.len())) {
        Some((sport, dport)) => Some(
            orient(
                proto,
                IpAddr::V6(src),
                sport,
                IpAddr::V6(dst),
                dport,
                outgoing,
                40 + payload_len,
            ),
        ),
        None => None,
    }
}

/// Map an IP protocol number to the transports that are accounted for.
pub fn transport(proto: u8) -> (r: Option<Proto>)
    ensures
        r == transport_of(proto),
{
    if proto == 6 {
        Some(Proto::Tcp)
    } else if proto == 17 {
        Some(Proto::Udp)
    } else {
        None
    }
}

/// Read the source and destination port from the start of a transport header.
pub fn ports(l4: &[u8]) -> (r: Option<(u16, u16)>)
    ensures
        r == if l4@.len() >= 4 {
            Some((be16(l4@, 0), be16(l4@, 2)))
        } else {
            None
        },
{
    if l4.len() < 4 {
        return None;
    }
    Some((read16(l4, 0), read16(l4, 2)))
}

/// Orient the endpoints of a packet into local and remote.
pub fn orient(
    proto: Proto,
    src: IpAddr,
    sport: u16,
    dst: IpAddr,
    dport: u16,
    outgoing: bool,
    bytes: u64,
) -> (r: Sample)
    ensures
        r == oriented(proto, src, sport, dst, dport, outgoing, bytes),
{
    let (local_ip, local_port, rem_ip, rem_port) = if outgoing {
        (src, sport, dst, dport)
    } else {
        (dst, dport, src, sport)
    };
    Sample { proto, local_ip, local_port, rem_ip, rem_port, outgoing, bytes }
}

// ---- Laws --------------------------------------------------------------------

/// The direction of a packet decides only which end is local: read as received,
/// a frame gives what it gives read as sent, with the two ends exchanged.
pub proof fn law_direction_swaps_ends(buf: Seq<u8>)
    ensures
        frame_sample(buf, true) is Some <==> frame_sample(buf, false) is Some,
        match (frame_sample(buf, true), frame_sample(buf, false)) {
            (Some(o), Some(i)) => {
                &&& o.outgoing && !i.outgoing
                &&& o.local_ip == i.rem_ip && o.local_port == i.rem_port
                &&& o.rem_ip == i.local_ip && o.rem_port == i.local_port
                &&& o.proto == i.proto && o.bytes == i.bytes
            },
            _ => true,
        },
{
}

/// No loopback traffic is counted: neither end of a counted packet is a loopback
/// address.
pub proof fn law_loopback_is_dropped(buf: Seq<u8>, outgoing: bool)
    ensures
        match frame_sample(buf, outgoing) {
            Some(s) => !is_loopback_ip(s.local_ip) && !is_loopback_ip(s.rem_ip),
            None => true,
        },
{
    if let Some(s) = frame_sample(buf, outgoing) {
        let d = buf.skip(14);
        if be16(buf, 12) == 0x0800 {
            assert(d.subrange(12, 16) =~= seq![d[12], d[13], d[14], d[15]]);
            assert(d.subrange(16, 20) =~= seq![d[16], d[17], d[18], d[19]]);
            lemma_be4(d[12], d[13], d[14], d[15]);
            lemma_be4(d[16], d[17], d[18], d[19]);
        }
    }
}

/// The loopback addresses: `127.0.0.0/8` and `::1`.
pub open spec fn is_loopback_ip(ip: IpAddr) -> bool {
    match ip {
        IpAddr::V4(a) => a.bits / 0x100_0000 == 127,
        IpAddr::V6(a) => a.bits == 1,
    }
}

/// An IPv4 packet is counted exactly if its header and the ports behind it are
/// complete, it carries TCP or UDP, and neither end is in the loopback range. Nothing
/// else, such as its fragment fields, its options or its stated length, leaves it out.
/// It counts with the total length that it states, with the octets of its addresses,
/// and with the ports that stand behind its header and options.
pub proof fn law_ipv4_packets_are_counted(d: Seq<u8>, outgoing: bool)
    ensures
        d.len() < 20 ==> ipv4_sample(d, outgoing) is None,
        d.len() >= 20 ==> {
            let h = 4 * (d[0] % 16);
            let r = ipv4_sample(d, outgoing);
            let src_ip = d[12] * 0x100_0000 + d[13] * 0x1_0000 + d[14] * 0x100 + d[15];
            let dst_ip = d[16] * 0x100_0000 + d[17] * 0x1_0000 + d[18] * 0x100 + d[19];
            let src_port = d[h] * 256 + d[h + 1];
            let dst_port = d[h + 2] * 256 + d[h + 3];
            &&& r is Some <==> h >= 20 && d.len() >= h + 4 && (d[9] == 6 || d[9] == 17) && d[12]
                != 127 && d[16] != 127
            &&& r is Some ==> {
                let s = r->0;
                &&& s.bytes == d[2] * 256 + d[3]
                &&& s.outgoing == outgoing
                &&& s.proto == if d[9] == 6 {
                    Proto::Tcp
                } else {
                    Proto::Udp
                }
                &&& s.local_ip is V4
                &&& s.rem_ip is V4
                &&& outgoing ==> s.local_ip->V4_0.bits == src_ip && s.rem_ip->V4_0.bits == dst_ip
                    && s.local_port == src_port && s.rem_port == dst_port
                &&& !outgoing ==> s.local_ip->V4_0.bits == dst_ip && s.rem_ip->V4_0.bits == src_ip
                    && s.local_port == dst_port && s.rem_port == src_port
            }
        },
{
    if d.len() >= 20 {
        assert(d.subrange(12, 16) =~= seq![d[12], d[13], d[14], d[15]]);
        assert(d.subrange(16, 20) =~= seq![d[16], d[17], d[18], d[19]]);
        lemma_be4(d[12], d[13], d[14], d[15]);
        lemma_be4(d[16], d[17], d[18], d[19]);
    }
}

/// An IPv6 packet is counted exactly if it is complete up to the ports, its next header
/// is TCP or UDP, and neither end is the loopback address. It counts with its header of
/// forty bytes and the payload length that it states.
pub proof fn law_ipv6_packets_are_counted(d: Seq<u8>, outgoing: bool)
    ensures
        d.len() < 44 ==> ipv6_sample(d, outgoing) is None,
        d.len() >= 44 ==> {
            let r = ipv6_sample(d, outgoing);
            let src_ip = be_value(d.subrange(8, 24));
            let dst_ip = be_value(d.subrange(24, 40));
            let src_port = d[40] * 256 + d[41];
            let dst_port = d[42] * 256 + d[43];
            &&& r is Some <==> (d[6] == 6 || d[6] == 17) && src_ip != 1 && dst_ip != 1
            &&& r is Some ==> {
                let s = r->0;
                &&& s.bytes == 40 + d[4] * 256 + d[5]
                &&& s.outgoing == outgoing
                &&& s.proto == if d[6] == 6 {
                    Proto::Tcp
                } else {
                    Proto::Udp
                }
                &&& s.local_ip is V6
                &&& s.rem_ip is V6
                &&& outgoing ==> s.local_ip->V6_0.bits == src_ip && s.rem_ip->V6_0.bits == dst_ip
                    && s.local_port == src_port && s.rem_port == dst_port
                &&& !outgoing ==> s.local_ip->V6_0.bits == dst_ip && s.rem_ip->V6_0.bits == src_ip
                    && s.local_port == dst_port && s.rem_port == src_port
            }
        },
{
    if d.len() >= 44 {
        lemma_be_bound(d.subrange(8, 24));
        lemma_be_bound(d.subrange(24, 40));
        lemma_pow256(16);
    }
}

/// A frame is read by its type, behind an Ethernet header of fourteen bytes: those of
/// IPv4 and IPv6 as packets of these, and no other.
pub proof fn law_frames_are_read_by_type(buf: Seq<u8>, outgoing: bool)
    ensures
        buf.len() < 14 ==> frame_sample(buf, outgoing) is None,
        buf.len() >= 14 && buf[12] == 0x08 && buf[13] == 0x00 ==> frame_sample(buf, outgoing)
            == ipv4_sample(buf.skip(14), outgoing),
        buf.len() >= 14 && buf[12] == 0x86 && buf[13] == 0xDD ==> frame_sample(buf, outgoing)
            == ipv6_sample(buf.skip(14), outgoing),
        buf.len() >= 14 && !(buf[12] == 0x08 && buf[13] == 0x00) && !(buf[12] == 0x86 && buf[13]
            == 0xDD) ==> frame_sample(buf, outgoing) is None,
{
}

/// What stands behind the ports does not matter: a frame that was cut off there gives
/// what the whole frame gives.
pub proof fn law_payload_does_not_matter(buf: Seq<u8>, more: Seq<u8>, outgoing: bool)
    requires
        frame_sample(buf, outgoing) is Some,
    ensures
        frame_sample(buf + more, outgoing) == frame_sample(buf, outgoing),
{
    let d = buf.skip(14);
    let e = (buf + more).skip(14);
    assert(e =~= d + more);
    assert(e.subrange(12, 16) =~= d.subrange(12, 16));
    assert(e.subrange(16, 20) =~= d.subrange(16, 20));
    if be16(buf, 12) == 0x86DD {
        assert(e.subrange(8, 24) =~= d.subrange(8, 24));
        assert(e.subrange(24, 40) =~= d.subrange(24, 40));
    }
}

} // verus!
