//! Internet addresses as numbers, and the prefixes that group them.

use vstd::arithmetic::power2::pow2;
use vstd::bits::*;
use vstd::prelude::*;

verus! {

/// The number that bytes spell, most significant first.
pub open spec fn be_value(b: Seq<u8>) -> nat
    decreases b.len(),
{
    if b.len() == 0 {
        0
    } else {
        be_value(b.drop_last()) * 256 + b.last() as nat
    }
}

/// An IPv4 address, as the number that its four octets spell.
#[derive(Debug, Clone, Copy, PartialEq, Eq, Structural)]
pub struct Ipv4Addr {
    pub bits: u32,
}

/// An IPv6 address, as the number that its sixteen octets spell.
#[derive(Debug, Clone, Copy, PartialEq, Eq, Structural)]
pub struct Ipv6Addr {
    pub bits: u128,
}

/// An address of either family.
#[derive(Debug, Clone, Copy, PartialEq, Eq, Structural)]
pub enum IpAddr {
    V4(Ipv4Addr),
    V6(Ipv6Addr),
}

impl Ipv4Addr {
    /// The address `a.b.c.d`.
    pub fn new(a: u8, b: u8, c: u8, d: u8) -> (r: Ipv4Addr)
        ensures
            r.bits == be_value(seq![a, b, c, d]),
            r.bits == a * 0x100_0000 + b * 0x1_0000 + c * 0x100 + d,
    {
        let r = Ipv4Addr {
            bits: (a as u32) * 0x100_0000 + (b as u32) * 0x1_0000 + (c as u32) * 0x100 + (d as u32),
        };
        proof {
            lemma_be4(a, b, c, d);
        }
        r
    }

    /// The four octets, most significant first.
    pub fn octets(self) -> (r: [u8; 4])
        ensures
            be_value(r@) == self.bits,
    {
        let a: u8 = (self.bits / 0x100_0000) as u8;
        let b: u8 = (self.bits / 0x1_0000 % 0x100) as u8;
        let c: u8 = (self.bits / 0x100 % 0x100) as u8;
        let d: u8 = (self.bits % 0x100) as u8;
        let r: [u8; 4] = [a, b, c, d];
        proof {
            assert(r@ =~= seq![a, b, c, d]);
            lemma_be4(a, b, c, d);
        }
        r
    }

    /// Whether the address is in `127.0.0.0/8`.
    pub fn is_loopback(&self) -> (r: bool)
        ensures
            r == (self.bits / 0x100_0000 == 127),
    {
        self.bits / 0x100_0000 == 127
    }
}

impl Ipv6Addr {
    /// Whether the address is `::1`.
    pub fn is_loopback(&self) -> (r: bool)
        ensures
            r == (self.bits == 1),
    {
        self.bits == 1
    }

    /// The address whose octets are the sixteen bytes of `b` from `at` on.
    pub fn from_bytes(b: &[u8], at: usize) -> (r: Ipv6Addr)
        requires
            at + 16 <= b@.len(),
        ensures
            r.bits == be_value(b@.subrange(at as int, at + 16)),
    {
        let len: usize = b.len();
        let mut bits: u128 = 0;
        let mut i: usize = 0;
        let ghost all = b@.subrange(at as int, at + 16);
        assert(all.take(0) =~= Seq::<u8>::empty());
        while i < 16
            invariant
                i <= 16,
                at + 16 <= len,
                len == b@.len(),
                all == b@.subrange(at as int, at + 16),
                bits == be_value(all.take(i as int)),
            decreases 16 - i,
        {
            proof {
                assert(all.take(i + 1).drop_last() =~= all.take(i as int));
                assert(all.take(i + 1).last() == b@[at + i]);
                lemma_be_bound(all.take(i + 1));
                lemma_pow256(i + 1);
            }
            bits = bits * 256 + (b[at + i] as u128);
            i = i + 1;
        }
        assert(all.take(16) =~= all);
        Ipv6Addr { bits }
    }
}

/// 256 to the power `n`.
pub open spec fn pow256(n: nat) -> nat
    decreases n,
{
    if n == 0 {
        1
    } else {
        256 * pow256((n - 1) as nat)
    }
}

pub proof fn lemma_pow256(n: int)
    requires
        0 <= n <= 16,
    ensures
        pow256(n as nat) <= 0x1_0000_0000_0000_0000_0000_0000_0000_0000,
    decreases 16 - n,
{
    reveal_with_fuel(pow256, 18);
}

pub proof fn lemma_be_bound(b: Seq<u8>)
    ensures
        be_value(b) < pow256(b.len()),
    decreases b.len(),
{
    if b.len() > 0 {
        lemma_be_bound(b.drop_last());
    }
}

pub proof fn lemma_be4(a: u8, b: u8, c: u8, d: u8)
    ensures
        be_value(seq![a, b, c, d]) == a * 0x100_0000 + b * 0x1_0000 + c * 0x100 + d,
{
    let s = seq![a, b, c, d];
    assert(s.drop_last() =~= seq![a, b, c]);
    assert(s.drop_last().drop_last() =~= seq![a, b]);
    assert(s.drop_last().drop_last().drop_last() =~= seq![a]);
    assert(s.drop_last().drop_last().drop_last().drop_last() =~= Seq::<u8>::empty());
    reveal_with_fuel(be_value, 6);
}

// ---- Prefixes ----------------------------------------------------------------

/// A network prefix.
#[derive(Debug, Clone, Copy)]
pub struct Cidr {
    pub net: IpAddr,
    pub prefix: u8,
}

/// Whether two numbers of `width` bits agree in their first `prefix` bits; a
/// prefix longer than that is taken as `width`.
pub open spec fn same_prefix(a: nat, b: nat, width: nat, prefix: nat) -> bool {
    let rest = (if prefix < width {
        width - prefix
    } else {
        0
    }) as nat;
    a / pow2(rest) == b / pow2(rest)
}

impl Cidr {
    /// Whether an address lies in the prefix: it is of the same family and agrees
    /// with the network in the leading bits.
    pub open spec fn covers(self, ip: IpAddr) -> bool {
        match (self.net, ip) {
            (IpAddr::V4(n), IpAddr::V4(a)) => same_prefix(
                n.bits as nat,
                a.bits as nat,
                32,
                self.prefix as nat,
            ),
            (IpAddr::V6(n), IpAddr::V6(a)) => same_prefix(
                n.bits as nat,
                a.bits as nat,
                128,
                self.prefix as nat,
            ),
            _ => false,
        }
    }

    /// Whether an address lies in the prefix.
    pub fn contains(&self, ip: IpAddr) -> (r: bool)
        ensures
            r == self.covers(ip),
    {
        match (self.net, ip) {
            (IpAddr::V4(n), IpAddr::V4(a)) => {
                if self.prefix == 0 {
                    proof {
                        lemma_top_v4(n.bits);
                        lemma_top_v4(a.bits);
                    }
                    true
                } else {
                    let rest: u32 = if self.prefix < 32 {
                        32 - self.prefix as u32
                    } else {
                        0
                    };
                    proof {
                        lemma_u32_shr_is_div(n.bits, rest);
                        lemma_u32_shr_is_div(a.bits, rest);
                    }
                    n.bits >> rest == a.bits >> rest
                }
            },
            (IpAddr::V6(n), IpAddr::V6(a)) => {
                if self.prefix == 0 {
                    proof {
                        lemma_top_v6(n.bits);
                        lemma_top_v6(a.bits);
                    }
                    true
                } else {
                    let rest: u128 = if self.prefix < 128 {
                        128 - self.prefix as u128
                    } else {
                        0
                    };
                    proof {
                        lemma_u128_shr_is_div(n.bits, rest);
                        lemma_u128_shr_is_div(a.bits, rest);
                    }
                    n.bits >> rest == a.bits >> rest
                }
            },
            _ => false,
        }
    }
}

proof fn lemma_top_v4(x: u32)
    ensures
        x as nat / pow2(32) == 0,
{
    vstd::arithmetic::power2::lemma2_to64();
    assert(x as nat / 0x1_0000_0000nat == 0) by (nonlinear_arith)
        requires
            x < 0x1_0000_0000,
    ;
}

proof fn lemma_top_v6(x: u128)
    ensures
        x as nat / pow2(128) == 0,
{
    vstd::arithmetic::power2::lemma2_to64();
    vstd::arithmetic::power2::lemma_pow2_adds(64, 64);
    assert(pow2(128) == 0x1_0000_0000_0000_0000_0000_0000_0000_0000);
    assert(x as nat / 0x1_0000_0000_0000_0000_0000_0000_0000_0000nat == 0) by (nonlinear_arith)
        requires
            x < 0x1_0000_0000_0000_0000_0000_0000_0000_0000,
    ;
}

// ---- Laws --------------------------------------------------------------------

/// Octets spell a number, the most significant first.
pub proof fn law_octets_spell_a_number(b: Seq<u8>, x: u8)
    ensures
        be_value(Seq::empty()) == 0,
        be_value(b.push(x)) == 256 * be_value(b) + x,
{
    assert(b.push(x).drop_last() =~= b);
}

/// A prefix covers the addresses of its family that agree with it in its leading bits,
/// and no address of the other family.
pub proof fn law_prefix_covers_its_block(c: Cidr, ip: IpAddr)
    ensures
        c.net is V4 && ip is V4 && c.prefix <= 32 ==> c.covers(ip) == (c.net->V4_0.bits as nat
            / pow2((32 - c.prefix) as nat) == ip->V4_0.bits as nat / pow2((32 - c.prefix) as nat)),
        c.net is V6 && ip is V6 && c.prefix <= 128 ==> c.covers(ip) == (c.net->V6_0.bits as nat
            / pow2((128 - c.prefix) as nat) == ip->V6_0.bits as nat / pow2(
            (128 - c.prefix) as nat,
        )),
        c.net is V4 && ip is V6 ==> !c.covers(ip),
        c.net is V6 && ip is V4 ==> !c.covers(ip),
{
}

/// A prefix covers its own network address. With all bits given, or more, it covers no
/// other, and with none it covers its whole family.
pub proof fn law_prefix_lengths(c: Cidr, ip: IpAddr)
    ensures
        c.covers(c.net),
        c.net is V4 && c.prefix >= 32 ==> c.covers(ip) == (ip == c.net),
        c.net is V6 && c.prefix >= 128 ==> c.covers(ip) == (ip == c.net),
        c.prefix == 0 ==> c.covers(ip) == (c.net is V4 <==> ip is V4),
{
    vstd::arithmetic::power2::lemma2_to64();
    assert(pow2(0) == 1);
    assert forall|x: nat| #[trigger] (x / pow2(0)) == x by {
        vstd::arithmetic::div_mod::lemma_div_basics(x as int);
    }
    if c.prefix == 0 {
        match (c.net, ip) {
            (IpAddr::V4(n), IpAddr::V4(a)) => {
                lemma_top_v4(n.bits);
                lemma_top_v4(a.bits);
            },
            (IpAddr::V6(n), IpAddr::V6(a)) => {
                lemma_top_v6(n.bits);
                lemma_top_v6(a.bits);
            },
            _ => {},
        }
    }
}

/// A longer prefix covers less.
pub proof fn law_longer_prefix_covers_less(c: Cidr, ip: IpAddr)
    requires
        c.prefix < u8::MAX,
        (Cidr { prefix: (c.prefix + 1) as u8, ..c }).covers(ip),
    ensures
        c.covers(ip),
{
    match (c.net, ip) {
        (IpAddr::V4(n), IpAddr::V4(a)) => {
            lemma_shorter(n.bits as nat, a.bits as nat, 32, c.prefix as nat);
        },
        (IpAddr::V6(n), IpAddr::V6(a)) => {
            lemma_shorter(n.bits as nat, a.bits as nat, 128, c.prefix as nat);
        },
        _ => {},
    }
}

proof fn lemma_shorter(a: nat, b: nat, width: nat, prefix: nat)
    requires
        same_prefix(a, b, width, prefix + 1),
    ensures
        same_prefix(a, b, width, prefix),
{
    if prefix < width {
        let rest = (width - prefix - 1) as nat;
        vstd::arithmetic::power2::lemma_pow2_unfold(rest + 1);
        vstd::arithmetic::power2::lemma_pow2_pos(rest);
        vstd::arithmetic::div_mod::lemma_div_denominator(a as int, pow2(rest) as int, 2);
        vstd::arithmetic::div_mod::lemma_div_denominator(b as int, pow2(rest) as int, 2);
        assert(pow2(rest + 1) == pow2(rest) * 2);
    }
}

} // verus!
