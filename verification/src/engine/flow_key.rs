//! Keys by which the packet classifier finds the class of a connection.

use vstd::prelude::*;

use crate::addr::{be_value, lemma_be4, Ipv4Addr};

verus! {

/// Preference of the classifier among the filters of inbound traffic.
pub const INGRESS_BPF_PRIORITY: u16 = 1;

/// A connection as the classifier reads it from a packet: addresses and ports in
/// the byte order of the network.
#[derive(Debug, Clone, Copy)]
pub struct FlowKey {
    pub saddr: [u8; 4],
    pub daddr: [u8; 4],
    pub sport: [u8; 2],
    pub dport: [u8; 2],
    pub proto: u8,
    pub pad: [u8; 3],
}

impl FlowKey {
    /// Whether the key is that of packets from one end to the other.
    pub open spec fn leads(
        &self,
        from: Ipv4Addr,
        from_port: u16,
        to: Ipv4Addr,
        to_port: u16,
        proto: u8,
    ) -> bool {
        &&& be_value(self.saddr@) == from.bits
        &&& be_value(self.daddr@) == to.bits
        &&& be_value(self.sport@) == from_port
        &&& be_value(self.dport@) == to_port
        &&& self.proto == proto
        &&& self.pad@ == seq![0u8, 0u8, 0u8]
    }
}

fn port_bytes(p: u16) -> (r: [u8; 2])
    ensures
        be_value(r@) == p,
{
    let a: u8 = (p / 256) as u8;
    let b: u8 = (p % 256) as u8;
    let r: [u8; 2] = [a, b];
    proof {
        assert(r@ =~= seq![a, b]);
        assert(r@.drop_last() =~= seq![a]);
        assert(r@.drop_last().drop_last() =~= Seq::<u8>::empty());
        reveal_with_fuel(be_value, 4);
    }
    r
}

fn key(from: Ipv4Addr, from_port: u16, to: Ipv4Addr, to_port: u16, proto: u8) -> (r: FlowKey)
    ensures
        r.leads(from, from_port, to, to_port, proto),
{
    let r: FlowKey = FlowKey {
        saddr: from.octets(),
        daddr: to.octets(),
        sport: port_bytes(from_port),
        dport: port_bytes(to_port),
        proto,
        pad: [0, 0, 0],
    };
    assert(r.pad@ =~= seq![0u8, 0u8, 0u8]);
    r
}

/// The keys of both directions of a connection: outbound and inbound.
pub fn seed_flow(
    local_ip: Ipv4Addr,
    local_port: u16,
    remote_ip: Ipv4Addr,
    remote_port: u16,
    proto: u8,
) -> (r: (FlowKey, FlowKey))
    ensures
        r.0.leads(local_ip, local_port, remote_ip, remote_port, proto),
        r.1.leads(remote_ip, remote_port, local_ip, local_port, proto),
{
    (
        key(local_ip, local_port, remote_ip, remote_port, proto),
        key(remote_ip, remote_port, local_ip, local_port, proto),
    )
}

/// The key of a connection names it: two connections with one key are the same.
pub proof fn law_key_names_connection(
    k: FlowKey,
    a: (Ipv4Addr, u16, Ipv4Addr, u16, u8),
    b: (Ipv4Addr, u16, Ipv4Addr, u16, u8),
)
    requires
        k.leads(a.0, a.1, a.2, a.3, a.4),
        k.leads(b.0, b.1, b.2, b.3, b.4),
    ensures
        a == b,
{
}

/// A key holds the addresses and the ports of the two ends in the byte order of the
/// network, those of the sender first.
pub proof fn law_key_layout(
    k: FlowKey,
    from: Ipv4Addr,
    from_port: u16,
    to: Ipv4Addr,
    to_port: u16,
    proto: u8,
)
    requires
        k.leads(from, from_port, to, to_port, proto),
    ensures
        k.saddr@[0] * 0x100_0000 + k.saddr@[1] * 0x1_0000 + k.saddr@[2] * 0x100 + k.saddr@[3]
            == from.bits,
        k.daddr@[0] * 0x100_0000 + k.daddr@[1] * 0x1_0000 + k.daddr@[2] * 0x100 + k.daddr@[3]
            == to.bits,
        k.sport@[0] * 256 + k.sport@[1] == from_port,
        k.dport@[0] * 256 + k.dport@[1] == to_port,
        k.proto == proto,
        k.pad@ == seq![0u8, 0u8, 0u8],
{
    let (s, d) = (k.saddr@, k.daddr@);
    assert(s =~= seq![s[0], s[1], s[2], s[3]]);
    assert(d =~= seq![d[0], d[1], d[2], d[3]]);
    lemma_be4(s[0], s[1], s[2], s[3]);
    lemma_be4(d[0], d[1], d[2], d[3]);
    lemma_be2(k.sport@);
    lemma_be2(k.dport@);
}

proof fn lemma_be2(b: Seq<u8>)
    requires
        b.len() == 2,
    ensures
        be_value(b) == b[0] * 256 + b[1],
{
    assert(b.drop_last().drop_last() =~= Seq::<u8>::empty());
    reveal_with_fuel(be_value, 4);
}

} // verus!
