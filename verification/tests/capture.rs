use curb::addr::{Cidr, IpAddr, Ipv4Addr, Ipv6Addr};
use curb::monitor::capture::{is_outgoing, parse_frame, ETH_HEADER_LEN};
use curb::monitor::lan::{parse_cidr, parse_route, route_prefixes, LanRanges};
use curb::monitor::procmap::Proto;

/// An Ethernet, IPv4 and TCP frame.
fn ipv4_tcp_frame(src: [u8; 4], dst: [u8; 4], sport: u16, dport: u16, total: u16) -> Vec<u8> {
    let mut f = vec![0u8; ETH_HEADER_LEN];
    f[12] = 0x08;
    f[13] = 0x00;
    let mut ip = vec![0u8; 20];
    ip[0] = 0x45;
    ip[2..4].copy_from_slice(&total.to_be_bytes());
    ip[9] = 6;
    ip[12..16].copy_from_slice(&src);
    ip[16..20].copy_from_slice(&dst);
    let mut l4 = vec![0u8; 4];
    l4[0..2].copy_from_slice(&sport.to_be_bytes());
    l4[2..4].copy_from_slice(&dport.to_be_bytes());
    f.extend_from_slice(&ip);
    f.extend_from_slice(&l4);
    f
}

/// An Ethernet, IPv6 and UDP frame.
fn ipv6_udp_frame(src: u128, dst: u128, sport: u16, dport: u16, payload: u16) -> Vec<u8> {
    let mut f = vec![0u8; ETH_HEADER_LEN];
    f[12] = 0x86;
    f[13] = 0xDD;
    let mut ip = vec![0u8; 40];
    ip[0] = 0x60;
    ip[4..6].copy_from_slice(&payload.to_be_bytes());
    ip[6] = 17;
    ip[8..24].copy_from_slice(&src.to_be_bytes());
    ip[24..40].copy_from_slice(&dst.to_be_bytes());
    f.extend_from_slice(&ip);
    f.extend_from_slice(&sport.to_be_bytes());
    f.extend_from_slice(&dport.to_be_bytes());
    f
}

#[test]
fn outgoing_orients_local_to_source() {
    let frame = ipv4_tcp_frame([192, 168, 0, 5], [1, 1, 1, 1], 50000, 443, 1500);
    let s = parse_frame(&frame, true).unwrap();
    assert_eq!(s.local_ip, IpAddr::V4(Ipv4Addr::new(192, 168, 0, 5)));
    assert_eq!(s.local_port, 50000);
    assert_eq!(s.rem_port, 443);
    assert!(s.outgoing);
    assert_eq!(s.bytes, 1500);
}

#[test]
fn incoming_orients_local_to_dest() {
    let frame = ipv4_tcp_frame([1, 1, 1, 1], [192, 168, 0, 5], 443, 50000, 1500);
    let s = parse_frame(&frame, false).unwrap();
    assert_eq!(s.local_ip, IpAddr::V4(Ipv4Addr::new(192, 168, 0, 5)));
    assert_eq!(s.local_port, 50000);
    assert_eq!(s.rem_port, 443);
    assert!(!s.outgoing);
}

#[test]
fn loopback_is_dropped() {
    let frame = ipv4_tcp_frame([127, 0, 0, 1], [127, 0, 0, 1], 1, 2, 100);
    assert!(parse_frame(&frame, true).is_none());
}

#[test]
fn ipv6_length_counts_the_header() {
    let frame = ipv6_udp_frame(0x2001_0db8 << 96 | 1, 0x2001_0db8 << 96 | 2, 53, 4000, 100);
    let s = parse_frame(&frame, true).unwrap();
    assert_eq!(s.proto, Proto::Udp);
    assert_eq!(s.local_ip, IpAddr::V6(Ipv6Addr { bits: 0x2001_0db8 << 96 | 1 }));
    assert_eq!(s.rem_ip, IpAddr::V6(Ipv6Addr { bits: 0x2001_0db8 << 96 | 2 }));
    assert_eq!((s.local_port, s.rem_port), (53, 4000));
    assert_eq!(s.bytes, 140);
    let looped = ipv6_udp_frame(1, 1, 53, 4000, 100);
    assert!(parse_frame(&looped, false).is_none());
}

#[test]
fn frames_that_are_not_counted() {
    assert!(parse_frame(&[0u8; 13], true).is_none());
    let mut arp = ipv4_tcp_frame([1, 1, 1, 1], [2, 2, 2, 2], 1, 2, 100);
    arp[13] = 0x06;
    assert!(parse_frame(&arp, true).is_none());
    let mut icmp = ipv4_tcp_frame([1, 1, 1, 1], [2, 2, 2, 2], 1, 2, 100);
    icmp[ETH_HEADER_LEN + 9] = 1;
    assert!(parse_frame(&icmp, true).is_none());
    let mut short = ipv4_tcp_frame([1, 1, 1, 1], [2, 2, 2, 2], 1, 2, 100);
    short.pop();
    assert!(parse_frame(&short, true).is_none());
}

#[test]
fn direction_swaps_the_ends() {
    let frame = ipv4_tcp_frame([192, 168, 0, 5], [1, 1, 1, 1], 50000, 443, 60);
    let sent = parse_frame(&frame, true).unwrap();
    let got = parse_frame(&frame, false).unwrap();
    assert_eq!((sent.local_ip, sent.local_port), (got.rem_ip, got.rem_port));
    assert_eq!((sent.rem_ip, sent.rem_port), (got.local_ip, got.local_port));
    assert!(is_outgoing(4));
    assert!(!is_outgoing(0));
}

fn v4(a: u8, b: u8, c: u8, d: u8) -> IpAddr {
    IpAddr::V4(Ipv4Addr::new(a, b, c, d))
}

#[test]
fn private_addresses_are_lan() {
    let lan = LanRanges::load(Vec::new());
    for ip in [
        v4(127, 0, 0, 1),
        v4(10, 255, 0, 1),
        v4(172, 16, 0, 1),
        v4(172, 31, 255, 255),
        v4(192, 168, 7, 7),
        v4(169, 254, 1, 1),
        v4(100, 64, 0, 1),
        v4(100, 127, 255, 255),
        IpAddr::V6(Ipv6Addr { bits: 1 }),
        IpAddr::V6(Ipv6Addr { bits: 0xfd00 << 112 | 5 }),
        IpAddr::V6(Ipv6Addr { bits: 0xfe80 << 112 | 5 }),
    ] {
        assert!(lan.contains(ip), "{ip:?}");
    }
    for ip in [
        v4(8, 8, 8, 8),
        v4(172, 32, 0, 0),
        v4(192, 169, 0, 0),
        v4(100, 128, 0, 0),
        IpAddr::V6(Ipv6Addr { bits: 2 }),
        IpAddr::V6(Ipv6Addr { bits: 0x2001_0db8 << 96 }),
    ] {
        assert!(!lan.contains(ip), "{ip:?}");
    }
}

#[test]
fn connected_subnets_are_lan() {
    let ours = IpAddr::V6(Ipv6Addr { bits: 0x2001_0db8_0001_0002 << 64 | 9 });
    assert!(!LanRanges::load(Vec::new()).contains(ours));
    let net = IpAddr::V6(Ipv6Addr { bits: 0x2001_0db8_0001_0002 << 64 });
    let lan = LanRanges::load(vec![Cidr { net, prefix: 64 }]);
    assert!(lan.contains(ours));
}

#[test]
fn prefixes_mask_whole_families() {
    let all4 = Cidr { net: v4(1, 2, 3, 4), prefix: 0 };
    assert!(all4.contains(v4(200, 200, 200, 200)));
    assert!(!all4.contains(IpAddr::V6(Ipv6Addr { bits: 1 })));
    let one = Cidr { net: v4(1, 2, 3, 4), prefix: 200 };
    assert!(one.contains(v4(1, 2, 3, 4)));
    assert!(!one.contains(v4(1, 2, 3, 5)));
}

#[test]
fn cidr_parts_and_defaults() {
    assert_eq!(parse_cidr("192.168.0.0/24"), Some(("192.168.0.0".to_string(), 24)));
    assert_eq!(parse_cidr("::1"), Some(("::1".to_string(), 128)));
    assert_eq!(parse_cidr("10.0.0.1"), Some(("10.0.0.1".to_string(), 32)));
    assert_eq!(parse_cidr("10.0.0.0/256"), None);
    assert_eq!(parse_cidr("10.0.0.0/"), None);
    assert_eq!(parse_cidr("10.0.0.0/+8"), Some(("10.0.0.0".to_string(), 8)));
}

#[test]
fn routes_without_a_next_hop_are_local() {
    let listing = "default via 192.168.0.1 dev eno1 proto dhcp metric 100\n\
                   10.8.0.0/16 via 192.168.0.9 dev eno1\n\
                   192.168.0.0/24 dev eno1 proto kernel scope link\n\
                   \n\
                   fe80::/64 dev eno1 metric 1024\n\
                   unreachable something\n";
    assert_eq!(
        route_prefixes(listing),
        vec![
            ("192.168.0.0".to_string(), 24),
            ("fe80::".to_string(), 64),
            ("unreachable".to_string(), 32),
        ]
    );
    assert_eq!(parse_route("default dev tun0"), None);
}
