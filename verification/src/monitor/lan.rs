//! Which remote addresses count as the local network.

use vstd::arithmetic::power2::pow2;
use vstd::prelude::*;

use crate::addr::{same_prefix, Cidr, IpAddr, Ipv4Addr, Ipv6Addr};
use crate::number::{decimal, law_number_is_read_back, parse_unsigned, unsigned};
use crate::text::{
    contains, has_char, has_part, law_split_at_the_first, lines, same, split_at_first, split_once,
    split_whitespace, strings, text_lines, words,
};

verus! {

/// The places where the tool that lists routes may be installed, in order.
pub fn ip_bin_paths() -> (r: Vec<String>)
    ensures
        r.deep_view() == seq!["/usr/sbin/ip"@, "/sbin/ip"@, "/usr/bin/ip"@, "/bin/ip"@],
{
    let r: Vec<String> = strings(&["/usr/sbin/ip", "/sbin/ip", "/usr/bin/ip", "/bin/ip"]);
    assert(r.deep_view() =~= seq!["/usr/sbin/ip"@, "/sbin/ip"@, "/usr/bin/ip"@, "/bin/ip"@]);
    r
}

/// The private, shared, link-local and loopback ranges.
pub open spec fn fixed() -> Seq<Cidr> {
    seq![
        // 127.0.0.0/8
        Cidr { net: IpAddr::V4(Ipv4Addr { bits: 0x7f00_0000 }), prefix: 8 },
        // 10.0.0.0/8
        Cidr { net: IpAddr::V4(Ipv4Addr { bits: 0x0a00_0000 }), prefix: 8 },
        // 172.16.0.0/12
        Cidr { net: IpAddr::V4(Ipv4Addr { bits: 0xac10_0000 }), prefix: 12 },
        // 192.168.0.0/16
        Cidr { net: IpAddr::V4(Ipv4Addr { bits: 0xc0a8_0000 }), prefix: 16 },
        // 169.254.0.0/16
        Cidr { net: IpAddr::V4(Ipv4Addr { bits: 0xa9fe_0000 }), prefix: 16 },
        // 100.64.0.0/10
        Cidr { net: IpAddr::V4(Ipv4Addr { bits: 0x6440_0000 }), prefix: 10 },
        // ::1/128
        Cidr { net: IpAddr::V6(Ipv6Addr { bits: 1 }), prefix: 128 },
        // fc00::/7
        Cidr {
            net: IpAddr::V6(Ipv6Addr { bits: 0xfc00_0000_0000_0000_0000_0000_0000_0000 }),
            prefix: 7,
        },
        // fe80::/10
        Cidr {
            net: IpAddr::V6(Ipv6Addr { bits: 0xfe80_0000_0000_0000_0000_0000_0000_0000 }),
            prefix: 10,
        },
    ]
}

/// The set of address ranges treated as the local network: the fixed ranges plus
/// the directly connected subnets of the machine.
pub struct LanRanges {
    pub subnets: Vec<Cidr>,
}

impl LanRanges {
    /// Whether an address counts as local.
    pub open spec fn is_lan(&self, ip: IpAddr) -> bool {
        exists|i: int| 0 <= i < self.subnets@.len() && (#[trigger] self.subnets@[i]).covers(ip)
    }

    /// The fixed ranges and the given subnets.
    pub fn load(connected: Vec<Cidr>) -> (r: LanRanges)
        ensures
            r.subnets@ == fixed() + connected@,
    {
        let mut subnets: Vec<Cidr> = vec![
            Cidr { net: IpAddr::V4(Ipv4Addr { bits: 0x7f00_0000 }), prefix: 8 },
            Cidr { net: IpAddr::V4(Ipv4Addr { bits: 0x0a00_0000 }), prefix: 8 },
            Cidr { net: IpAddr::V4(Ipv4Addr { bits: 0xac10_0000 }), prefix: 12 },
            Cidr { net: IpAddr::V4(Ipv4Addr { bits: 0xc0a8_0000 }), prefix: 16 },
            Cidr { net: IpAddr::V4(Ipv4Addr { bits: 0xa9fe_0000 }), prefix: 16 },
            Cidr { net: IpAddr::V4(Ipv4Addr { bits: 0x6440_0000 }), prefix: 10 },
            Cidr { net: IpAddr::V6(Ipv6Addr { bits: 1 }), prefix: 128 },
            Cidr {
                net: IpAddr::V6(Ipv6Addr { bits: 0xfc00_0000_0000_0000_0000_0000_0000_0000 }),
                prefix: 7,
            },
            Cidr {
                net: IpAddr::V6(Ipv6Addr { bits: 0xfe80_0000_0000_0000_0000_0000_0000_0000 }),
                prefix: 10,
            },
        ];
        assert(subnets@ =~= fixed());
        for i in 0..connected.len()
            invariant
                subnets@ == fixed() + connected@.take(i as int),
        {
            subnets.push(connected[i]);
            assert(subnets@ =~= fixed() + connected@.take(i + 1));
        }
        assert(connected@.take(connected@.len() as int) =~= connected@);
        LanRanges { subnets }
    }

    /// Whether an address counts as local.
    pub fn contains(&self, ip: IpAddr) -> (r: bool)
        ensures
            r == self.is_lan(ip),
    {
        for i in 0..self.subnets.len()
            invariant
                forall|j: int| 0 <= j < i ==> !(#[trigger] self.subnets@[j]).covers(ip),
        {
            if self.subnets[i].contains(ip) {
                return true;
            }
        }
        false
    }
}

/// The address and the prefix length of `net/len` or of a bare address, which
/// stands for itself alone.
pub open spec fn cidr_parts(s: Seq<char>) -> Option<(Seq<char>, u8)> {
    match split_at_first(s, '/') {
        Some((net, len)) => match unsigned(len, 10, u8::MAX as int) {
            Some(n) => Some((net, n as u8)),
            None => None,
        },
        None => Some(
            (
                s,
                if s.contains(':') {
                    128u8
                } else {
                    32u8
                },
            ),
        ),
    }
}

/// Split a prefix into the text of its address and its length.
pub fn parse_cidr(s: &str) -> (r: Option<(String, u8)>)
    ensures
        match r {
            Some((net, len)) => cidr_parts(s@) == Some((net@, len)),
            None => cidr_parts(s@) is None,
        },
{
    match split_once(s, '/') {
        Some((net, len)) => match parse_unsigned(len.as_str(), 10, u8::MAX as u64) {
            Some(n) => Some((net, n as u8)),
            None => None,
        },
        None => {
            let len: u8 = if has_char(s, ':') {
                128
            } else {
                32
            };
            Some((s.to_string(), len))
        },
    }
}

/// The prefix that a line of the routing table makes local: its first word,
/// unless it is the default route or goes through a next hop.
pub open spec fn on_link(line: Seq<char>) -> Option<(Seq<char>, u8)> {
    let w = words(line);
    if w.len() == 0 || w[0] == "default"@ || has_part(line, " via "@) {
        None
    } else {
        cidr_parts(w[0])
    }
}

/// The prefixes that the lines of a routing table make local, in order.
pub open spec fn on_link_all(body: Seq<Seq<char>>) -> Seq<(Seq<char>, u8)>
    decreases body.len(),
{
    if body.len() == 0 {
        Seq::empty()
    } else {
        let rest = on_link_all(body.drop_last());
        match on_link(body.last()) {
            Some(p) => rest.push(p),
            None => rest,
        }
    }
}

/// Prefixes with their texts as values.
pub open spec fn prefix_texts(v: Seq<(String, u8)>) -> Seq<(Seq<char>, u8)> {
    v.map_values(|p: (String, u8)| (p.0@, p.1))
}

/// Read the local prefixes from a listing of the routing table.
pub fn route_prefixes(listing: &str) -> (r: Vec<(String, u8)>)
    ensures
        prefix_texts(r@) == on_link_all(text_lines(listing@)),
{
    let all: Vec<String> = lines(listing);
    let ghost body = text_lines(listing@);
    let mut r: Vec<(String, u8)> = Vec::new();
    assert(all.deep_view() == body);
    assert(body.take(0) =~= Seq::<Seq<char>>::empty());
    assert(prefix_texts(r@) =~= Seq::empty());
    for i in 0..all.len()
        invariant
            all.deep_view() == body,
            prefix_texts(r@) == on_link_all(body.take(i as int)),
    {
        assert(body.take(i + 1).drop_last() =~= body.take(i as int));
        assert(body[i as int] == all@[i as int]@);
        let ghost before = r@;
        match parse_route(all[i].as_str()) {
            Some(p) => {
                let ghost q = p;
                r.push(p);
                assert(prefix_texts(r@) =~= prefix_texts(before).push((q.0@, q.1)));
            },
            None => {},
        }
    }
    assert(body.take(body.len() as int) =~= body);
    r
}

/// Read the local prefix of one line of the routing table.
pub fn parse_route(line: &str) -> (r: Option<(String, u8)>)
    ensures
        match r {
            Some((net, len)) => on_link(line@) == Some((net@, len)),
            None => on_link(line@) is None,
        },
{
    let w: Vec<String> = split_whitespace(line);
    assert(w.deep_view() == words(line@));
    if w.len() == 0 {
        return None;
    }
    assert(w@[0]@ == words(line@)[0]);
    if same(w[0].as_str(), "default") || contains(line, " via ") {
        return None;
    }
    parse_cidr(w[0].as_str())
}

/// The fixed ranges are local whatever the routing table holds.
pub proof fn law_private_is_lan(r: LanRanges, connected: Seq<Cidr>, i: int, ip: IpAddr)
    requires
        r.subnets@ == fixed() + connected,
        0 <= i < fixed().len(),
        fixed()[i].covers(ip),
    ensures
        r.is_lan(ip),
{
    assert(r.subnets@[i] == fixed()[i]);
}

/// A directly connected subnet is local, whatever its addresses look like.
pub proof fn law_connected_is_lan(r: LanRanges, connected: Seq<Cidr>, i: int, ip: IpAddr)
    requires
        r.subnets@ == fixed() + connected,
        0 <= i < connected.len(),
        connected[i].covers(ip),
    ensures
        r.is_lan(ip),
{
    assert(r.subnets@[fixed().len() + i] == connected[i]);
}

/// Every line of the routing table counts: the prefixes of lines and of further lines are
/// those of all.
pub proof fn law_routes_add_up(a: Seq<Seq<char>>, b: Seq<Seq<char>>, line: Seq<char>)
    ensures
        on_link_all(a + b) == on_link_all(a) + on_link_all(b),
        on_link(line) is Some ==> on_link_all(seq![line]) == seq![on_link(line)->0],
        on_link(line) is None ==> on_link_all(seq![line]) == Seq::<(Seq<char>, u8)>::empty(),
        on_link_all(Seq::empty()) == Seq::<(Seq<char>, u8)>::empty(),
    decreases b.len(),
{
    reveal_with_fuel(on_link_all, 2);
    assert(seq![line].drop_last() =~= Seq::<Seq<char>>::empty());
    if on_link(line) is Some {
        assert(on_link_all(seq![line]) =~= seq![on_link(line)->0]);
    }
    if b.len() == 0 {
        assert(a + b =~= a);
        assert(on_link_all(a + b) =~= on_link_all(a) + on_link_all(b));
    } else {
        law_routes_add_up(a, b.drop_last(), line);
        assert((a + b).drop_last() =~= a + b.drop_last());
        assert((a + b).last() == b.last());
        assert(on_link_all(a + b) =~= on_link_all(a) + on_link_all(b));
    }
}

/// A route without a next hop that is not the default makes its prefix local: the number
/// behind the slash is the length of the prefix, and an address alone stands for itself.
pub proof fn law_direct_routes_are_local(line: Seq<char>, net: Seq<char>, len: u8)
    requires
        words(line).len() > 0,
        words(line)[0] != "default"@,
        !has_part(line, " via "@),
        forall|i: int| 0 <= i < net.len() ==> #[trigger] net[i] != '/',
    ensures
        words(line)[0] == net + seq!['/'] + decimal(len as nat) ==> on_link(line) == Some((net, len)),
        words(line)[0] == net && !net.contains(':') ==> on_link(line) == Some((net, 32u8)),
        words(line)[0] == net && net.contains(':') ==> on_link(line) == Some((net, 128u8)),
{
    law_split_at_the_first(net, '/', decimal(len as nat));
    law_number_is_read_back(len as nat, 10, u8::MAX as int);
}

/// The default route, routes through a next hop and empty lines make nothing local.
pub proof fn law_other_routes_are_not_local(line: Seq<char>)
    ensures
        words(line).len() == 0 ==> on_link(line) is None,
        words(line).len() > 0 && words(line)[0] == "default"@ ==> on_link(line) is None,
        has_part(line, " via "@) ==> on_link(line) is None,
{
}

/// The addresses that are local on every machine: loopback, the private ranges,
/// link-local addresses and the shared range, and of IPv6 the loopback address, unique
/// local addresses and link-local addresses.
pub proof fn law_fixed_local_addresses(ip: IpAddr)
    ensures
        (exists|i: int| 0 <= i < fixed().len() && (#[trigger] fixed()[i]).covers(ip)) <==> match ip {
            IpAddr::V4(a) => {
                ||| a.bits / 0x100_0000 == 127
                ||| a.bits / 0x100_0000 == 10
                ||| a.bits / 0x10_0000 == 0xac1
                ||| a.bits / 0x1_0000 == 0xc0a8
                ||| a.bits / 0x1_0000 == 0xa9fe
                ||| a.bits / 0x40_0000 == 0x191
            },
            IpAddr::V6(a) => {
                ||| a.bits == 1
                ||| a.bits / 0x200_0000_0000_0000_0000_0000_0000_0000 == 0x7e
                ||| a.bits / 0x40_0000_0000_0000_0000_0000_0000_0000 == 0x3fa
            },
        },
{
    let f = fixed();
    match ip {
        IpAddr::V4(a) => {
            vstd::arithmetic::power2::lemma2_to64();
            let x = a.bits as nat;
            lemma_block(0x7f00_0000, x, 32, 8, 24, 0x100_0000);
            lemma_block(0x0a00_0000, x, 32, 8, 24, 0x100_0000);
            lemma_block(0xac10_0000, x, 32, 12, 20, 0x10_0000);
            lemma_block(0xc0a8_0000, x, 32, 16, 16, 0x1_0000);
            lemma_block(0xa9fe_0000, x, 32, 16, 16, 0x1_0000);
            lemma_block(0x6440_0000, x, 32, 10, 22, 0x40_0000);
            assert(f[0].covers(ip) <==> a.bits / 0x100_0000 == 127);
            assert(f[1].covers(ip) <==> a.bits / 0x100_0000 == 10);
            assert(f[2].covers(ip) <==> a.bits / 0x10_0000 == 0xac1);
            assert(f[3].covers(ip) <==> a.bits / 0x1_0000 == 0xc0a8);
            assert(f[4].covers(ip) <==> a.bits / 0x1_0000 == 0xa9fe);
            assert(f[5].covers(ip) <==> a.bits / 0x40_0000 == 0x191);
            assert(!f[6].covers(ip) && !f[7].covers(ip) && !f[8].covers(ip));
        },
        IpAddr::V6(a) => {
            let x = a.bits as nat;
            lemma_large_powers();
            lemma_block(1, x, 128, 128, 0, 1);
            lemma_block(
                0xfc00_0000_0000_0000_0000_0000_0000_0000,
                x,
                128,
                7,
                121,
                0x200_0000_0000_0000_0000_0000_0000_0000,
            );
            lemma_block(
                0xfe80_0000_0000_0000_0000_0000_0000_0000,
                x,
                128,
                10,
                118,
                0x40_0000_0000_0000_0000_0000_0000_0000,
            );
            assert(!f[0].covers(ip) && !f[1].covers(ip) && !f[2].covers(ip));
            assert(!f[3].covers(ip) && !f[4].covers(ip) && !f[5].covers(ip));
            assert(f[6].covers(ip) <==> a.bits == 1);
            assert(f[7].covers(ip) <==> a.bits / 0x200_0000_0000_0000_0000_0000_0000_0000 == 0x7e);
            assert(f[8].covers(ip) <==> a.bits / 0x40_0000_0000_0000_0000_0000_0000_0000 == 0x3fa);
        },
    }
}

proof fn lemma_block(a: nat, b: nat, width: nat, prefix: nat, rest: nat, block: nat)
    requires
        prefix <= width,
        rest == width - prefix,
        pow2(rest) == block,
    ensures
        same_prefix(a, b, width, prefix) == (a / block == b / block),
{
}

proof fn lemma_large_powers()
    ensures
        pow2(0) == 1,
        pow2(121) == 0x200_0000_0000_0000_0000_0000_0000_0000,
        pow2(118) == 0x40_0000_0000_0000_0000_0000_0000_0000,
{
    vstd::arithmetic::power2::lemma2_to64();
    vstd::arithmetic::power2::lemma2_to64_rest();
    vstd::arithmetic::power2::lemma_pow2_adds(64, 57);
    vstd::arithmetic::power2::lemma_pow2_adds(64, 54);
}

/// An address is local exactly if a fixed range or a connected subnet covers it.
pub proof fn law_only_these_are_local(r: LanRanges, connected: Seq<Cidr>, ip: IpAddr)
    requires
        r.subnets@ == fixed() + connected,
    ensures
        r.is_lan(ip) <==> (exists|i: int| 0 <= i < fixed().len() && (#[trigger] fixed()[i]).covers(ip))
            || (exists|i: int| 0 <= i < connected.len() && (#[trigger] connected[i]).covers(ip)),
{
    let f = fixed();
    if r.is_lan(ip) {
        let i = choose|i: int| 0 <= i < r.subnets@.len() && (#[trigger] r.subnets@[i]).covers(ip);
        if i < f.len() {
            assert(f[i].covers(ip));
        } else {
            assert(connected[i - f.len()].covers(ip));
        }
    }
    if exists|i: int| 0 <= i < f.len() && (#[trigger] f[i]).covers(ip) {
        let i = choose|i: int| 0 <= i < f.len() && (#[trigger] f[i]).covers(ip);
        law_private_is_lan(r, connected, i, ip);
    }
    if exists|i: int| 0 <= i < connected.len() && (#[trigger] connected[i]).covers(ip) {
        let i = choose|i: int| 0 <= i < connected.len() && (#[trigger] connected[i]).covers(ip);
        law_connected_is_lan(r, connected, i, ip);
    }
}

} // verus!
