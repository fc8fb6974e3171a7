//! Flow to application attribution.
//!
//! A flow is traced to the executable that owns it by way of its socket: the
//! socket tables of the kernel give the inode of each socket, and the open files
//! of each process give the process that holds that inode.

use std::collections::HashMap;

use vstd::arithmetic::div_mod::lemma_fundamental_div_mod_converse;
use vstd::prelude::*;

use crate::addr::{IpAddr, Ipv4Addr, Ipv6Addr};
use crate::keymap::{Key, KeyMap};
use crate::number::{
    all_digits, decimal, digit_value, digits_value, law_number_is_read_back,
    law_read_number_is_in_range, parse_unsigned, unsigned,
};
use crate::table::Table;
use crate::text::{
    chars, ends_with, law_split_at_the_first, lines, split_at_first, split_once, split_whitespace, starts_with,
    strip_prefix, strip_suffix, text, text_lines, words,
};

verus! {

/// Transport protocol of a flow.
#[derive(Clone, Copy, PartialEq, Eq, Hash, Debug, Structural)]
pub enum Proto {
    Tcp,
    Udp,
}

/// The executable that owns a flow.
#[derive(Debug)]
pub struct Owner {
    pub exe: String,
    pub pid: u32,
}

impl Clone for Owner {
    fn clone(&self) -> (r: Owner)
        ensures
            r == *self,
    {
        Owner { exe: self.exe.clone(), pid: self.pid }
    }
}

/// A flow: both endpoints and the protocol.
#[derive(Clone, Copy, PartialEq, Eq, Debug, Structural)]
pub struct FlowId {
    pub proto: Proto,
    pub local_ip: IpAddr,
    pub local_port: u16,
    pub rem_ip: IpAddr,
    pub rem_port: u16,
}

/// A local endpoint.
#[derive(Clone, Copy, PartialEq, Eq, Debug, Structural)]
pub struct LocalId {
    pub proto: Proto,
    pub ip: IpAddr,
    pub port: u16,
}

/// A local port.
#[derive(Clone, Copy, PartialEq, Eq, Debug, Structural)]
pub struct PortId {
    pub proto: Proto,
    pub port: u16,
}

impl Key for FlowId {
    fn same_key(&self, other: &Self) -> (r: bool) {
        *self == *other
    }
}

impl Key for LocalId {
    fn same_key(&self, other: &Self) -> (r: bool) {
        *self == *other
    }
}

impl Key for PortId {
    fn same_key(&self, other: &Self) -> (r: bool) {
        *self == *other
    }
}

// ---- Reading the process tree ------------------------------------------------

/// The process that a directory entry of the process tree stands for.
pub fn process_id(name: &str) -> (r: Option<u32>)
    ensures
        match r {
            Some(pid) => unsigned(name@, 10, u32::MAX as int) == Some(pid as int),
            None => unsigned(name@, 10, u32::MAX as int) is None,
        },
{
    match parse_unsigned(name, 10, u32::MAX as u64) {
        Some(n) => Some(n as u32),
        None => None,
    }
}

/// Mark that the kernel appends to the path of a binary replaced on disk.
pub const DELETED: &'static str = " (deleted)";

/// The path of an executable without the mark of a replaced binary.
pub open spec fn live_path(raw: Seq<char>) -> Seq<char> {
    if ends_with(raw, DELETED@) {
        raw.take(raw.len() - DELETED@.len())
    } else {
        raw
    }
}

/// The identity of an application from the link to its executable. The mark of a
/// replaced binary is stripped so that the identity stays stable.
pub fn read_exe(raw: String) -> (r: String)
    ensures
        r@ == live_path(raw@),
{
    match strip_suffix(raw.as_str(), DELETED) {
        Some(s) => s,
        None => raw,
    }
}

/// The inode of the socket that an open file points at.
pub open spec fn socket_target(target: Seq<char>) -> Option<int> {
    if starts_with(target, "socket:["@) && ends_with(target.skip("socket:["@.len() as int), "]"@) {
        let rest = target.skip("socket:["@.len() as int);
        unsigned(rest.take(rest.len() - "]"@.len()), 10, u64::MAX as int)
    } else {
        None
    }
}

/// Read the socket inode from the link of an open file, if it is a socket.
pub fn socket_inode(target: &str) -> (r: Option<u64>)
    ensures
        match r {
            Some(n) => socket_target(target@) == Some(n as int),
            None => socket_target(target@) is None,
        },
{
    match strip_prefix(target, "socket:[") {
        Some(rest) => match strip_suffix(rest.as_str(), "]") {
            Some(n) => parse_unsigned(n.as_str(), 10, u64::MAX),
            None => None,
        },
        None => None,
    }
}

/// The processes that a list of processes by executable holds for one.
pub open spec fn listed(t: Map<Seq<char>, Vec<u32>>, exe: Seq<char>) -> Seq<u32> {
    if t.dom().contains(exe) {
        t[exe]@
    } else {
        Seq::empty()
    }
}

/// The owner of each socket, by inode, and the processes of each owner.
pub struct SocketOwners {
    pub by_inode: HashMap<u64, Owner>,
    /// The processes that own a socket, by executable.
    pub pids: Table<Vec<u32>>,
}

impl SocketOwners {
    /// The processes are those of the sockets, each listed once.
    pub open spec fn wf(&self) -> bool {
        &&& self.pids.wf()
        &&& forall|exe: Seq<char>|
            {
                &&& (#[trigger] listed(self.pids@, exe)).no_duplicates()
                &&& listed(self.pids@, exe).to_set() == pids_of(self.by_inode@, exe)
            }
    }

    /// No sockets.
    pub fn new() -> (r: SocketOwners)
        ensures
            r.wf(),
            r.by_inode@ == Map::<u64, Owner>::empty(),
    {
        let r: SocketOwners = SocketOwners { by_inode: HashMap::new(), pids: Table::new() };
        assert forall|exe: Seq<char>|
            {
                &&& (#[trigger] listed(r.pids@, exe)).no_duplicates()
                &&& listed(r.pids@, exe).to_set() == pids_of(r.by_inode@, exe)
            } by {
            assert(listed(r.pids@, exe).to_set() =~= pids_of(r.by_inode@, exe));
        }
        r
    }

    /// Note that a process holds a socket. The first process found to hold a
    /// socket owns it; a process without a readable executable owns none.
    pub fn add(&mut self, inode: u64, exe: &str, pid: u32)
        requires
            old(self).wf(),
        ensures
            final(self).wf(),
            exe@.len() == 0 || old(self).by_inode@.dom().contains(inode) ==> final(self).by_inode@
                == old(self).by_inode@,
            exe@.len() > 0 && !old(self).by_inode@.dom().contains(inode) ==> {
                &&& final(self).by_inode@.dom() == old(self).by_inode@.dom().insert(inode)
                &&& final(self).by_inode@[inode].exe@ == exe@
                &&& final(self).by_inode@[inode].pid == pid
                &&& forall|k: u64|
                    old(self).by_inode@.dom().contains(k) ==> #[trigger] final(self).by_inode@[k]
                        == old(self).by_inode@[k]
            },
    {
        if exe.is_empty() || self.by_inode.contains_key(&inode) {
            return;
        }
        let ghost before = self.by_inode@;
        let ghost lists = self.pids@;
        let mut pids: Vec<u32> = match self.pids.remove(exe) {
            Some(v) => v,
            None => Vec::new(),
        };
        assert(pids@ == listed(lists, exe@));
        if !has_pid(&pids, pid) {
            pids.push(pid);
        }
        let ghost now = pids@;
        self.pids.insert(exe.to_string(), pids);
        self.by_inode.insert(inode, Owner { exe: exe.to_string(), pid });
        proof {
            let after = self.by_inode@;
            assert(after.dom() =~= before.dom().insert(inode));
            assert(listed(self.pids@, exe@) == now);
            assert forall|other: Seq<char>|
                {
                    &&& (#[trigger] listed(self.pids@, other)).no_duplicates()
                    &&& listed(self.pids@, other).to_set() == pids_of(after, other)
                } by {
                let was = listed(lists, other);
                assert(was.no_duplicates() && was.to_set() == pids_of(before, other));
                assert forall|p: u32| #[trigger] pids_of(after, other).contains(p) <==> pids_of(
                    before,
                    other,
                ).contains(p) || (other == exe@ && p == pid) by {
                    if pids_of(before, other).contains(p) {
                        let k = choose|k: u64| #[trigger]
                            before.dom().contains(k) && before[k].exe@ == other && before[k].pid
                                == p;
                        assert(after.dom().contains(k) && after[k] == before[k]);
                    }
                    if other == exe@ && p == pid {
                        assert(after.dom().contains(inode));
                    }
                    if pids_of(after, other).contains(p) {
                        let k = choose|k: u64| #[trigger]
                            after.dom().contains(k) && after[k].exe@ == other && after[k].pid == p;
                        if k != inode {
                            assert(before.dom().contains(k) && after[k] == before[k]);
                        }
                    }
                }
                if other == exe@ {
                    assert forall|p: u32| #[trigger]
                        now.to_set().contains(p) <==> was.to_set().contains(p) || p == pid by {
                        if was.contains(p) {
                            let x = choose|x: int| 0 <= x < was.len() && was[x] == p;
                            assert(now[x] == p);
                        }
                        if p == pid && !was.contains(pid) {
                            assert(now[now.len() - 1] == pid);
                        }
                    }
                    assert(now.to_set() =~= pids_of(after, other));
                } else {
                    assert(listed(self.pids@, other) == was);
                    assert(was.to_set() =~= pids_of(after, other));
                }
            }
        }
    }
}

// ---- Socket tables -----------------------------------------------------------

/// A word of an address as the kernel prints it, with its four bytes in the
/// opposite order.
pub open spec fn swapped(w: int) -> int {
    (w % 256) * 0x100_0000 + (w / 256 % 256) * 0x1_0000 + (w / 0x1_0000 % 256) * 256 + w
        / 0x100_0000
}

/// The address that eight or thirty-two hexadecimal digits spell: words of eight
/// digits, the bytes of each in little-endian order.
pub open spec fn hex_address(a: Seq<char>) -> Option<IpAddr> {
    if a.len() == 8 {
        match unsigned(a, 16, u32::MAX as int) {
            Some(w) => Some(IpAddr::V4(Ipv4Addr { bits: swapped(w) as u32 })),
            None => None,
        }
    } else if a.len() == 32 {
        match (
            unsigned(a.subrange(0, 8), 16, u32::MAX as int),
            unsigned(a.subrange(8, 16), 16, u32::MAX as int),
            unsigned(a.subrange(16, 24), 16, u32::MAX as int),
            unsigned(a.subrange(24, 32), 16, u32::MAX as int),
        ) {
            (Some(w0), Some(w1), Some(w2), Some(w3)) => Some(
                IpAddr::V6(
                    Ipv6Addr {
                        bits: (((swapped(w0) * 0x1_0000_0000 + swapped(w1)) * 0x1_0000_0000
                            + swapped(w2)) * 0x1_0000_0000 + swapped(w3)) as u128,
                    },
                ),
            ),
            _ => None,
        }
    } else {
        None
    }
}

/// The endpoint that `ADDR:PORT` in hexadecimal stands for.
pub open spec fn hex_endpoint(s: Seq<char>) -> Option<(IpAddr, u16)> {
    match split_at_first(s, ':') {
        Some((addr, port)) => match (unsigned(port, 16, u16::MAX as int), hex_address(addr)) {
            (Some(p), Some(ip)) => Some((ip, p as u16)),
            _ => None,
        },
        None => None,
    }
}

fn swap(w: u64) -> (r: u32)
    requires
        w <= u32::MAX,
    ensures
        r == swapped(w as int),
{
    let w: u32 = w as u32;
    (w % 256) * 0x100_0000 + (w / 256 % 256) * 0x1_0000 + (w / 0x1_0000 % 256) * 256 + w
        / 0x100_0000
}

fn hex_word(v: &Vec<char>, at: usize) -> (r: Option<u32>)
    requires
        at + 8 <= v@.len(),
    ensures
        match r {
            Some(w) => unsigned(v@.subrange(at as int, at + 8), 16, u32::MAX as int) is Some && w
                == swapped(unsigned(v@.subrange(at as int, at + 8), 16, u32::MAX as int)->0),
            None => unsigned(v@.subrange(at as int, at + 8), 16, u32::MAX as int) is None,
        },
{
    let n: usize = v.len();
    assert(at + 8 <= n);
    match parse_unsigned(text(v, at, at + 8).as_str(), 16, u32::MAX as u64) {
        Some(w) => Some(swap(w)),
        None => None,
    }
}

/// Parse an `ADDR:PORT` endpoint of a socket table.
pub fn parse_hex_endpoint(s: &str) -> (r: Option<(IpAddr, u16)>)
    ensures
        r == hex_endpoint(s@),
{
    let (addr, port) = match split_once(s, ':') {
        Some(p) => p,
        None => {
            return None;
        },
    };
    let port: u16 = match parse_unsigned(port.as_str(), 16, u16::MAX as u64) {
        Some(p) => p as u16,
        None => {
            return None;
        },
    };
    let v: Vec<char> = chars(addr.as_str());
    if v.len() == 8 {
        assert(v@.subrange(0, 8) =~= v@);
        match hex_word(&v, 0) {
            Some(w) => Some((IpAddr::V4(Ipv4Addr { bits: w }), port)),
            None => None,
        }
    } else if v.len() == 32 {
        match (hex_word(&v, 0), hex_word(&v, 8), hex_word(&v, 16), hex_word(&v, 24)) {
            (Some(w0), Some(w1), Some(w2), Some(w3)) => {
                let high: u128 = (w0 as u128) * 0x1_0000_0000 + (w1 as u128);
                let low: u128 = (w2 as u128) * 0x1_0000_0000 + (w3 as u128);
                let bits: u128 = high * 0x1_0000_0000_0000_0000 + low;
                Some((IpAddr::V6(Ipv6Addr { bits }), port))
            },
            _ => None,
        }
    } else {
        None
    }
}

/// One row of a socket table.
#[derive(Clone, Copy, PartialEq, Eq, Debug, Structural)]
pub struct NetRow {
    pub local_ip: IpAddr,
    pub local_port: u16,
    pub rem_ip: IpAddr,
    pub rem_port: u16,
    pub inode: u64,
}

/// What a line of a socket table states: the second and third field are the
/// endpoints, the tenth is the inode.
pub open spec fn net_row(line: Seq<char>) -> Option<NetRow> {
    let f = words(line);
    if f.len() < 10 {
        None
    } else {
        match (hex_endpoint(f[1]), hex_endpoint(f[2]), unsigned(f[9], 10, u64::MAX as int)) {
            (Some((lip, lport)), Some((rip, rport)), Some(inode)) => Some(
                NetRow {
                    local_ip: lip,
                    local_port: lport,
                    rem_ip: rip,
                    rem_port: rport,
                    inode: inode as u64,
                },
            ),
            _ => None,
        }
    }
}

/// Read one line of a socket table.
pub fn parse_net_row(line: &str) -> (r: Option<NetRow>)
    ensures
        r == net_row(line@),
{
    let f: Vec<String> = split_whitespace(line);
    let ghost w = words(line@);
    assert(f.deep_view() == w);
    if f.len() < 10 {
        return None;
    }
    assert(f@[1]@ == w[1] && f@[2]@ == w[2] && f@[9]@ == w[9]);
    let (local_ip, local_port) = match parse_hex_endpoint(f[1].as_str()) {
        Some(e) => e,
        None => {
            return None;
        },
    };
    let (rem_ip, rem_port) = match parse_hex_endpoint(f[2].as_str()) {
        Some(e) => e,
        None => {
            return None;
        },
    };
    match parse_unsigned(f[9].as_str(), 10, u64::MAX) {
        Some(inode) => Some(NetRow { local_ip, local_port, rem_ip, rem_port, inode }),
        None => None,
    }
}

// ---- Attribution -------------------------------------------------------------

/// Owners by flow, by local endpoint and by local port.
pub struct Flows {
    pub full: Map<FlowId, Owner>,
    pub local: Map<LocalId, Owner>,
    pub port: Map<PortId, Owner>,
}

/// The key of a row among exact flows.
pub open spec fn flow_of(proto: Proto, row: NetRow) -> FlowId {
    FlowId {
        proto,
        local_ip: row.local_ip,
        local_port: row.local_port,
        rem_ip: row.rem_ip,
        rem_port: row.rem_port,
    }
}

/// Enter the owner of a row. The last row of a flow counts, and the first row of
/// a local endpoint and of a local port.
pub open spec fn with_row(m: Flows, proto: Proto, row: NetRow, owner: Owner) -> Flows {
    let l = LocalId { proto, ip: row.local_ip, port: row.local_port };
    let p = PortId { proto, port: row.local_port };
    Flows {
        full: m.full.insert(flow_of(proto, row), owner),
        local: if m.local.dom().contains(l) {
            m.local
        } else {
            m.local.insert(l, owner)
        },
        port: if m.port.dom().contains(p) {
            m.port
        } else {
            m.port.insert(p, owner)
        },
    }
}

/// Enter a line. Lines that are not rows, and rows whose socket has no known
/// owner, add nothing.
pub open spec fn with_line(
    m: Flows,
    proto: Proto,
    owners: Map<u64, Owner>,
    line: Seq<char>,
) -> Flows {
    match net_row(line) {
        Some(row) => if row.inode != 0 && owners.dom().contains(row.inode) {
            with_row(m, proto, row, owners[row.inode])
        } else {
            m
        },
        None => m,
    }
}

/// Enter lines in order.
pub open spec fn with_lines(
    m: Flows,
    proto: Proto,
    owners: Map<u64, Owner>,
    body: Seq<Seq<char>>,
) -> Flows
    decreases body.len(),
{
    if body.len() == 0 {
        m
    } else {
        with_line(with_lines(m, proto, owners, body.drop_last()), proto, owners, body.last())
    }
}

/// The lines of a socket table after its heading.
pub open spec fn table_body(content: Seq<char>) -> Seq<Seq<char>> {
    let all = text_lines(content);
    if all.len() == 0 {
        all
    } else {
        all.skip(1)
    }
}

/// Enter whole tables in order.
pub open spec fn with_tables(
    m: Flows,
    owners: Map<u64, Owner>,
    tables: Seq<(Proto, String)>,
) -> Flows
    decreases tables.len(),
{
    if tables.len() == 0 {
        m
    } else {
        with_lines(
            with_tables(m, owners, tables.drop_last()),
            tables.last().0,
            owners,
            table_body(tables.last().1@),
        )
    }
}

/// The processes that own a socket and run the given executable.
pub open spec fn pids_of(owners: Map<u64, Owner>, exe: Seq<char>) -> Set<u32> {
    Set::new(
        |pid: u32|
            exists|inode: u64| #[trigger]
                owners.dom().contains(inode) && owners[inode].exe@ == exe && owners[inode].pid
                    == pid,
    )
}

/// A resolved view of every attributable socket on the host.
pub struct ProcMap {
    /// Owner of an exact flow (most precise).
    pub full: KeyMap<FlowId, Owner>,
    /// Owner of a local endpoint (unconnected sockets, wildcard remotes).
    pub local: KeyMap<LocalId, Owner>,
    /// Owner of a local port (last resort).
    pub port: KeyMap<PortId, Owner>,
    /// Number of distinct owning processes of each executable.
    pub exe_pids: Table<u32>,
}

impl ProcMap {
    pub open spec fn wf(&self) -> bool {
        &&& self.full.wf()
        &&& self.local.wf()
        &&& self.port.wf()
        &&& self.exe_pids.wf()
    }

    /// The owners that the map knows.
    pub open spec fn flows(&self) -> Flows {
        Flows { full: self.full@, local: self.local@, port: self.port@ }
    }

    /// The owner of a flow: by the exact flow, or else by the local endpoint, or
    /// else by the local port.
    pub open spec fn owner(&self, id: FlowId) -> Option<Owner> {
        let l = LocalId { proto: id.proto, ip: id.local_ip, port: id.local_port };
        let p = PortId { proto: id.proto, port: id.local_port };
        if self.full@.dom().contains(id) {
            Some(self.full@[id])
        } else if self.local@.dom().contains(l) {
            Some(self.local@[l])
        } else if self.port@.dom().contains(p) {
            Some(self.port@[p])
        } else {
            None
        }
    }

    /// The process count that the map holds for an executable.
    pub open spec fn pid_count(&self, exe: Seq<char>) -> u32 {
        if self.exe_pids@.dom().contains(exe) {
            self.exe_pids@[exe]
        } else {
            0
        }
    }

    /// A map that attributes nothing.
    pub fn new() -> (r: ProcMap)
        ensures
            r.wf(),
            r.flows() == (Flows { full: Map::empty(), local: Map::empty(), port: Map::empty() }),
            r.exe_pids@ == Map::<Seq<char>, u32>::empty(),
    {
        ProcMap {
            full: KeyMap::new(),
            local: KeyMap::new(),
            port: KeyMap::new(),
            exe_pids: Table::new(),
        }
    }

    /// Resolve a flow to its owner, most specific first.
    pub fn lookup(
        &self,
        proto: Proto,
        local_ip: IpAddr,
        local_port: u16,
        rem_ip: IpAddr,
        rem_port: u16,
    ) -> (r: Option<&Owner>)
        requires
            self.wf(),
        ensures
            match r {
                Some(o) => self.owner(
                    FlowId { proto, local_ip, local_port, rem_ip, rem_port },
                ) == Some(*o),
                None => self.owner(
                    FlowId { proto, local_ip, local_port, rem_ip, rem_port },
                ) is None,
            },
    {
        match self.full.get(FlowId { proto, local_ip, local_port, rem_ip, rem_port }) {
            Some(o) => Some(o),
            None => match self.local.get(LocalId { proto, ip: local_ip, port: local_port }) {
                Some(o) => Some(o),
                None => self.port.get(PortId { proto, port: local_port }),
            },
        }
    }

    /// Number of distinct live processes attributed to an executable.
    pub fn pids_for(&self, exe: &str) -> (r: u32)
        requires
            self.wf(),
        ensures
            r == self.pid_count(exe@),
    {
        match self.exe_pids.get(exe) {
            Some(n) => *n,
            None => 0,
        }
    }

    /// Build the attribution map from the socket owners and the contents of the
    /// socket tables.
    pub fn build(owners: &SocketOwners, tables: &Vec<(Proto, String)>) -> (r: ProcMap)
        requires
            owners.wf(),
        ensures
            r.wf(),
            r.flows() == with_tables(
                Flows { full: Map::empty(), local: Map::empty(), port: Map::empty() },
                owners.by_inode@,
                tables@,
            ),
            forall|exe: Seq<char>|
                r.pid_count(exe) == #[trigger] pids_of(owners.by_inode@, exe).len() as u32,
    {
        let mut pm: ProcMap = ProcMap::new();
        pm.exe_pids = count_pids(owners);
        let ghost start = pm.flows();
        assert(tables@.take(0) =~= Seq::<(Proto, String)>::empty());
        for i in 0..tables.len()
            invariant
                owners.wf(),
                pm.wf(),
                pm.flows() == with_tables(start, owners.by_inode@, tables@.take(i as int)),
                forall|exe: Seq<char>|
                    pm.pid_count(exe) == #[trigger] pids_of(owners.by_inode@, exe).len() as u32,
        {
            assert(tables@.take(i + 1).drop_last() =~= tables@.take(i as int));
            parse_net_file(tables[i].1.as_str(), tables[i].0, owners, &mut pm);
        }
        assert(tables@.take(tables@.len() as int) =~= tables@);
        pm
    }
}

/// Enter one socket table into the attribution map.
pub fn parse_net_file(content: &str, proto: Proto, owners: &SocketOwners, pm: &mut ProcMap)
    requires
        owners.wf(),
        old(pm).wf(),
    ensures
        final(pm).wf(),
        final(pm).flows() == with_lines(
            old(pm).flows(),
            proto,
            owners.by_inode@,
            table_body(content@),
        ),
        final(pm).exe_pids == old(pm).exe_pids,
{
    let all: Vec<String> = lines(content);
    let ghost body = table_body(content@);
    let ghost start = pm.flows();
    assert(all.deep_view() == text_lines(content@));
    if all.len() == 0 {
        return;
    }
    assert(body.take(0) =~= Seq::<Seq<char>>::empty());
    for i in 1..all.len()
        invariant
            owners.wf(),
            pm.wf(),
            all.deep_view() == text_lines(content@),
            body == table_body(content@),
            body.len() == all.len() - 1,
            pm.flows() == with_lines(start, proto, owners.by_inode@, body.take(i - 1)),
            pm.exe_pids == old(pm).exe_pids,
    {
        assert(body.take(i as int).drop_last() =~= body.take(i - 1));
        assert(body[i - 1] == all@[i as int]@);
        assert(body.take(i as int).last() == all@[i as int]@);
        match parse_net_row(all[i].as_str()) {
            Some(row) => {
                if row.inode != 0 {
                    match owners.by_inode.get(&row.inode) {
                        Some(owner) => {
                            pm.full.insert(
                                FlowId {
                                    proto,
                                    local_ip: row.local_ip,
                                    local_port: row.local_port,
                                    rem_ip: row.rem_ip,
                                    rem_port: row.rem_port,
                                },
                                owner.clone(),
                            );
                            pm.local.insert_first(
                                LocalId { proto, ip: row.local_ip, port: row.local_port },
                                owner.clone(),
                            );
                            pm.port.insert_first(
                                PortId { proto, port: row.local_port },
                                owner.clone(),
                            );
                        },
                        None => {},
                    }
                }
            },
            None => {},
        }
    }
    assert(body.take(all.len() - 1) =~= body);
}

// ---- Counting processes ------------------------------------------------------

fn has_pid(pids: &Vec<u32>, pid: u32) -> (r: bool)
    ensures
        r == pids@.contains(pid),
{
    for i in 0..pids.len()
        invariant
            forall|j: int| 0 <= j < i ==> pids@[j] != pid,
    {
        if pids[i] == pid {
            return true;
        }
    }
    false
}

fn count_pids(owners: &SocketOwners) -> (r: Table<u32>)
    requires
        owners.wf(),
    ensures
        r.wf(),
        forall|exe: Seq<char>|
            (if r@.dom().contains(exe) {
                r@[exe]
            } else {
                0u32
            }) == #[trigger] pids_of(owners.by_inode@, exe).len() as u32,
{
    let lists: &Table<Vec<u32>> = &owners.pids;
    let mut counts: Table<u32> = Table::new();
    for n in 0..lists.entries.len()
        invariant
            lists.wf(),
            counts.wf(),
            counts.entries@.len() == n,
            forall|i: int|
                0 <= i < n ==> (#[trigger] counts.entries@[i]).0@ == lists.entries@[i].0@
                    && counts.entries@[i].1 == lists.entries@[i].1@.len() as u32,
    {
        let key: String = lists.entries[n].0.clone();
        proof {
            if counts@.dom().contains(key@) {
                let i = crate::table::key_index(counts.entries@, key@);
                assert(counts.entries@[i].0@ == key@);
                assert(lists.entries@[i].0@ == lists.entries@[n as int].0@);
            }
        }
        counts.insert(key, lists.entries[n].1.len() as u32);
    }
    proof {
        assert forall|exe: Seq<char>|
            (if counts@.dom().contains(exe) {
                counts@[exe]
            } else {
                0u32
            }) == #[trigger] pids_of(owners.by_inode@, exe).len() as u32 by {
            let l = listed(lists@, exe);
            assert(l.no_duplicates());
            l.unique_seq_to_set();
            if counts@.dom().contains(exe) {
                let i = crate::table::key_index(counts.entries@, exe);
                assert(counts.entries@[i].0@ == exe);
                counts.lemma_entry(i);
                lists.lemma_entry(i);
                assert(l == lists.entries@[i].1@);
            } else {
                if lists@.dom().contains(exe) {
                    let i = crate::table::key_index(lists.entries@, exe);
                    assert(lists.entries@[i].0@ == exe);
                    assert(counts.entries@[i].0@ == exe);
                    counts.lemma_entry(i);
                }
                assert(l.len() == 0);
            }
        }
    }
    counts
}

// ---- Laws --------------------------------------------------------------------

/// Every line counts: entering lines and then more of them is entering all.
pub proof fn law_lines_add_up(
    m: Flows,
    proto: Proto,
    owners: Map<u64, Owner>,
    a: Seq<Seq<char>>,
    b: Seq<Seq<char>>,
)
    ensures
        with_lines(m, proto, owners, a + b) == with_lines(
            with_lines(m, proto, owners, a),
            proto,
            owners,
            b,
        ),
        with_lines(m, proto, owners, Seq::empty()) == m,
    decreases b.len(),
{
    if b.len() == 0 {
        assert(a + b =~= a);
    } else {
        law_lines_add_up(m, proto, owners, a, b.drop_last());
        assert((a + b).drop_last() =~= a + b.drop_last());
        assert((a + b).last() == b.last());
    }
}

/// Every table counts: entering tables and then more of them is entering all.
pub proof fn law_tables_add_up(
    m: Flows,
    owners: Map<u64, Owner>,
    a: Seq<(Proto, String)>,
    b: Seq<(Proto, String)>,
)
    ensures
        with_tables(m, owners, a + b) == with_tables(with_tables(m, owners, a), owners, b),
        with_tables(m, owners, Seq::empty()) == m,
    decreases b.len(),
{
    if b.len() == 0 {
        assert(a + b =~= a);
    } else {
        law_tables_add_up(m, owners, a, b.drop_last());
        assert((a + b).drop_last() =~= a + b.drop_last());
        assert((a + b).last() == b.last());
    }
}

/// A table is entered line by line, but for its heading.
pub proof fn law_table_is_entered_by_line(
    m: Flows,
    owners: Map<u64, Owner>,
    table: (Proto, String),
    heading: Seq<char>,
    body: Seq<Seq<char>>,
)
    requires
        text_lines(table.1@) == seq![heading] + body,
    ensures
        with_tables(m, owners, seq![table]) == with_lines(m, table.0, owners, body),
{
    reveal_with_fuel(with_tables, 2);
    assert(seq![table].drop_last() =~= Seq::<(Proto, String)>::empty());
    assert(table_body(table.1@) =~= body);
}

/// A line enters the owner of its socket for its flow, whatever stood there. For its
/// local endpoint and its local port it does so where nothing stood there yet. Nothing
/// else changes.
pub proof fn law_line_enters_its_owner(
    m: Flows,
    proto: Proto,
    owners: Map<u64, Owner>,
    line: Seq<char>,
    row: NetRow,
)
    requires
        net_row(line) == Some(row),
        row.inode != 0,
        owners.dom().contains(row.inode),
    ensures
        ({
            let r = with_lines(m, proto, owners, seq![line]);
            let owner = owners[row.inode];
            let flow = FlowId {
                proto,
                local_ip: row.local_ip,
                local_port: row.local_port,
                rem_ip: row.rem_ip,
                rem_port: row.rem_port,
            };
            let end = LocalId { proto, ip: row.local_ip, port: row.local_port };
            let port = PortId { proto, port: row.local_port };
            &&& r.full == m.full.insert(flow, owner)
            &&& m.local.dom().contains(end) ==> r.local == m.local
            &&& !m.local.dom().contains(end) ==> r.local == m.local.insert(end, owner)
            &&& m.port.dom().contains(port) ==> r.port == m.port
            &&& !m.port.dom().contains(port) ==> r.port == m.port.insert(port, owner)
        }),
{
    reveal_with_fuel(with_lines, 2);
    assert(seq![line].drop_last() =~= Seq::<Seq<char>>::empty());
}

/// A line that is no row, has no socket, or whose socket has no known owner changes
/// nothing.
pub proof fn law_other_lines_change_nothing(
    m: Flows,
    proto: Proto,
    owners: Map<u64, Owner>,
    line: Seq<char>,
)
    requires
        net_row(line) is None || net_row(line)->0.inode == 0 || !owners.dom().contains(
            net_row(line)->0.inode,
        ),
    ensures
        with_lines(m, proto, owners, seq![line]) == m,
{
    reveal_with_fuel(with_lines, 2);
    assert(seq![line].drop_last() =~= Seq::<Seq<char>>::empty());
}

/// Further lines take nothing away: what has an owner keeps one, and a local endpoint
/// and a local port keep the owner that they have.
pub proof fn law_lines_lose_nothing(
    m: Flows,
    proto: Proto,
    owners: Map<u64, Owner>,
    body: Seq<Seq<char>>,
)
    ensures
        ({
            let r = with_lines(m, proto, owners, body);
            &&& m.full.dom().subset_of(r.full.dom())
            &&& forall|l: LocalId| #[trigger]
                m.local.dom().contains(l) ==> r.local.dom().contains(l) && r.local[l] == m.local[l]
            &&& forall|p: PortId| #[trigger]
                m.port.dom().contains(p) ==> r.port.dom().contains(p) && r.port[p] == m.port[p]
        }),
    decreases body.len(),
{
    if body.len() > 0 {
        law_lines_lose_nothing(m, proto, owners, body.drop_last());
    }
}

/// Further tables take nothing away either.
pub proof fn law_tables_lose_nothing(
    m: Flows,
    owners: Map<u64, Owner>,
    tables: Seq<(Proto, String)>,
)
    ensures
        ({
            let r = with_tables(m, owners, tables);
            &&& m.full.dom().subset_of(r.full.dom())
            &&& forall|l: LocalId| #[trigger]
                m.local.dom().contains(l) ==> r.local.dom().contains(l) && r.local[l] == m.local[l]
            &&& forall|p: PortId| #[trigger]
                m.port.dom().contains(p) ==> r.port.dom().contains(p) && r.port[p] == m.port[p]
        }),
    decreases tables.len(),
{
    if tables.len() > 0 {
        let rest = tables.drop_last();
        law_tables_lose_nothing(m, owners, rest);
        law_lines_lose_nothing(
            with_tables(m, owners, rest),
            tables.last().0,
            owners,
            table_body(tables.last().1@),
        );
    }
}

/// Whether a line states the owner of a flow.
#[verifier::opaque]
pub open spec fn owns(owners: Map<u64, Owner>, line: Seq<char>, proto: Proto, id: FlowId) -> bool {
    match net_row(line) {
        Some(row) => {
            &&& row.inode != 0
            &&& owners.dom().contains(row.inode)
            &&& id == FlowId {
                proto,
                local_ip: row.local_ip,
                local_port: row.local_port,
                rem_ip: row.rem_ip,
                rem_port: row.rem_port,
            }
        },
        None => false,
    }
}

proof fn lemma_other_lines(
    m: Flows,
    proto: Proto,
    owners: Map<u64, Owner>,
    body: Seq<Seq<char>>,
    id: FlowId,
)
    requires
        forall|j: int| 0 <= j < body.len() ==> !owns(owners, #[trigger] body[j], proto, id),
    ensures
        with_lines(m, proto, owners, body).full.dom().contains(id) == m.full.dom().contains(id),
        with_lines(m, proto, owners, body).full[id] == m.full[id],
    decreases body.len(),
{
    if body.len() > 0 {
        let rest = body.drop_last();
        assert forall|j: int| 0 <= j < rest.len() implies !owns(
            owners,
            #[trigger] rest[j],
            proto,
            id,
        ) by {
            assert(rest[j] == body[j]);
        }
        lemma_other_lines(m, proto, owners, rest, id);
        assert(!owns(owners, body[body.len() - 1], proto, id));
        reveal(owns);
    }
}

proof fn lemma_last_line(
    m: Flows,
    proto: Proto,
    owners: Map<u64, Owner>,
    body: Seq<Seq<char>>,
    id: FlowId,
    i: int,
)
    requires
        0 <= i < body.len(),
        owns(owners, body[i], proto, id),
        forall|j: int| i < j < body.len() ==> !owns(owners, #[trigger] body[j], proto, id),
    ensures
        with_lines(m, proto, owners, body).full.dom().contains(id),
        with_lines(m, proto, owners, body).full[id] == owners[net_row(body[i])->0.inode],
{
    let a = body.take(i);
    let line = seq![body[i]];
    let b = body.skip(i + 1);
    assert(body =~= a + line + b);
    law_lines_add_up(m, proto, owners, a + line, b);
    law_lines_add_up(m, proto, owners, a, line);
    let before = with_lines(m, proto, owners, a);
    assert(net_row(body[i]) is Some && net_row(body[i])->0.inode != 0) by {
        reveal(owns);
    }
    assert(owners.dom().contains(net_row(body[i])->0.inode)) by {
        reveal(owns);
    }
    let row = net_row(body[i])->0;
    assert(id == flow_of(proto, row)) by {
        reveal(owns);
    }
    law_line_enters_its_owner(before, proto, owners, body[i], row);
    assert forall|j: int| 0 <= j < b.len() implies !owns(owners, #[trigger] b[j], proto, id) by {
        assert(b[j] == body[i + 1 + j]);
    }
    lemma_other_lines(with_lines(m, proto, owners, a + line), proto, owners, b, id);
}

/// Whether no table from `k` on states the owner of a flow.
pub open spec fn silent_from(
    owners: Map<u64, Owner>,
    tables: Seq<(Proto, String)>,
    k: int,
    id: FlowId,
) -> bool {
    forall|t: int, j: int|
        #![trigger text_lines(tables[t].1@)[j]]
        k <= t < tables.len() && 1 <= j < text_lines(tables[t].1@).len() ==> !owns(
            owners,
            text_lines(tables[t].1@)[j],
            tables[t].0,
            id,
        )
}

/// Every row of every table is attributed: the flow of a row whose socket has a known
/// owner belongs to that owner, in whichever table and line the row stands, unless a
/// later row states another owner of the same flow.
pub proof fn law_every_row_is_attributed(
    m: Flows,
    owners: Map<u64, Owner>,
    tables: Seq<(Proto, String)>,
    k: int,
    i: int,
    id: FlowId,
)
    requires
        0 <= k < tables.len(),
        1 <= i < text_lines(tables[k].1@).len(),
        owns(owners, text_lines(tables[k].1@)[i], tables[k].0, id),
        forall|j: int|
            i < j < text_lines(tables[k].1@).len() ==> !owns(
                owners,
                #[trigger] text_lines(tables[k].1@)[j],
                tables[k].0,
                id,
            ),
        silent_from(owners, tables, k + 1, id),
    ensures
        with_tables(m, owners, tables).full.dom().contains(id),
        with_tables(m, owners, tables).full[id] == owners[net_row(
            text_lines(tables[k].1@)[i],
        )->0.inode],
    decreases tables.len(),
{
    let n = tables.len() - 1;
    let rest = tables.drop_last();
    let all = text_lines(tables[n].1@);
    let body = table_body(tables[n].1@);
    let before = with_tables(m, owners, rest);
    assert(tables.last() == tables[n]);
    if k == n {
        assert(body =~= all.skip(1));
        assert(body[i - 1] == all[i]);
        assert forall|j: int| i - 1 < j < body.len() implies !owns(
            owners,
            #[trigger] body[j],
            tables[n].0,
            id,
        ) by {
            assert(body[j] == all[j + 1]);
        }
        lemma_last_line(before, tables[n].0, owners, body, id, i - 1);
    } else {
        assert(rest[k] == tables[k]);
        assert(silent_from(owners, rest, k + 1, id)) by {
            assert forall|t: int, j: int|
                #![trigger text_lines(rest[t].1@)[j]]
                k + 1 <= t < rest.len() && 1 <= j < text_lines(rest[t].1@).len() implies !owns(
                owners,
                text_lines(rest[t].1@)[j],
                rest[t].0,
                id,
            ) by {
                assert(rest[t] == tables[t]);
                assert(!owns(owners, text_lines(tables[t].1@)[j], tables[t].0, id));
            }
        }
        law_every_row_is_attributed(m, owners, rest, k, i, id);
        assert forall|j: int| 0 <= j < body.len() implies !owns(
            owners,
            #[trigger] body[j],
            tables[n].0,
            id,
        ) by {
            assert(body[j] == all[j + 1]);
            assert(!owns(owners, text_lines(tables[n].1@)[j + 1], tables[n].0, id));
        }
        lemma_other_lines(before, tables[n].0, owners, body, id);
    }
}

/// A flow is resolved by the most specific entry: by the exact flow, only then by its
/// local endpoint, and only then by its local port.
pub proof fn law_most_specific_owner(pm: ProcMap, id: FlowId)
    ensures
        ({
            let end = LocalId { proto: id.proto, ip: id.local_ip, port: id.local_port };
            let port = PortId { proto: id.proto, port: id.local_port };
            let (full, local, ports) = (pm.full@, pm.local@, pm.port@);
            &&& full.dom().contains(id) ==> pm.owner(id) == Some(full[id])
            &&& !full.dom().contains(id) && local.dom().contains(end) ==> pm.owner(id) == Some(
                local[end],
            )
            &&& !full.dom().contains(id) && !local.dom().contains(end) && ports.dom().contains(
                port,
            ) ==> pm.owner(id) == Some(ports[port])
            &&& pm.owner(id) is None <==> !full.dom().contains(id) && !local.dom().contains(end)
                && !ports.dom().contains(port)
        }),
{
}

/// Traffic of a flow that stands in a socket table is resolved to the owner of its
/// socket.
pub proof fn law_listed_flow_is_resolved(
    pm: ProcMap,
    owners: Map<u64, Owner>,
    tables: Seq<(Proto, String)>,
    k: int,
    i: int,
    id: FlowId,
)
    requires
        pm.flows() == with_tables(
            Flows { full: Map::empty(), local: Map::empty(), port: Map::empty() },
            owners,
            tables,
        ),
        0 <= k < tables.len(),
        1 <= i < text_lines(tables[k].1@).len(),
        owns(owners, text_lines(tables[k].1@)[i], tables[k].0, id),
        forall|j: int|
            i < j < text_lines(tables[k].1@).len() ==> !owns(
                owners,
                #[trigger] text_lines(tables[k].1@)[j],
                tables[k].0,
                id,
            ),
        silent_from(owners, tables, k + 1, id),
    ensures
        pm.owner(id) == Some(owners[net_row(text_lines(tables[k].1@)[i])->0.inode]),
{
    let start = Flows { full: Map::empty(), local: Map::empty(), port: Map::empty() };
    law_every_row_is_attributed(start, owners, tables, k, i, id);
}

/// A process counts for an executable exactly if it owns a socket and runs it.
pub proof fn law_processes_of_an_executable(owners: Map<u64, Owner>, exe: Seq<char>, pid: u32)
    ensures
        pids_of(owners, exe).contains(pid) <==> exists|inode: u64| #[trigger]
            owners.dom().contains(inode) && owners[inode].exe@ == exe && owners[inode].pid == pid,
{
}

/// The mark of a replaced binary is taken off a path, and nothing else is.
pub proof fn law_replaced_binary_keeps_its_path(path: Seq<char>)
    ensures
        live_path(path + " (deleted)"@) == path,
        !ends_with(path, " (deleted)"@) ==> live_path(path) == path,
{
    reveal_strlit(" (deleted)");
    let s = path + " (deleted)"@;
    assert(s.skip(path.len() as int) =~= " (deleted)"@);
    assert(s.take(path.len() as int) =~= path);
}

/// An open file is the socket whose inode its link names, and no link of another form
/// names one.
pub proof fn law_socket_links(inode: u64, target: Seq<char>)
    ensures
        socket_target("socket:["@ + decimal(inode as nat) + "]"@) == Some(inode as int),
        !starts_with(target, "socket:["@) ==> socket_target(target) is None,
        target.len() > 0 && target.last() != ']' ==> socket_target(target) is None,
{
    reveal_strlit("socket:[");
    reveal_strlit("]");
    let d = decimal(inode as nat);
    let s = "socket:["@ + d + "]"@;
    assert(s.take(8) =~= "socket:["@);
    let rest = s.skip(8);
    assert(rest =~= d + "]"@);
    assert(rest.skip(rest.len() - 1) =~= "]"@);
    assert(rest.take(rest.len() - 1) =~= d);
    law_number_is_read_back(inode as nat, 10, u64::MAX as int);
    if starts_with(target, "socket:["@) && target.len() > 0 && target.last() != ']' {
        let r = target.skip(8);
        if ends_with(r, "]"@) {
            assert(r.skip(r.len() - 1)[0] == ']');
            assert(r.last() == target.last());
        }
    }
}

/// The fields of a row: the second and third are its endpoints, the tenth is its inode.
pub proof fn law_fields_of_a_row(line: Seq<char>)
    ensures
        net_row(line) is Some <==> words(line).len() >= 10 && hex_endpoint(words(line)[1]) is Some
            && hex_endpoint(words(line)[2]) is Some && unsigned(
            words(line)[9],
            10,
            u64::MAX as int,
        ) is Some,
        match net_row(line) {
            Some(r) => {
                &&& hex_endpoint(words(line)[1]) == Some((r.local_ip, r.local_port))
                &&& hex_endpoint(words(line)[2]) == Some((r.rem_ip, r.rem_port))
                &&& unsigned(words(line)[9], 10, u64::MAX as int) == Some(r.inode as int)
            },
            None => true,
        },
{
    let f = words(line);
    if f.len() >= 10 {
        let (a, b, n) = (hex_endpoint(f[1]), hex_endpoint(f[2]), unsigned(
            f[9],
            10,
            u64::MAX as int,
        ));
        if n is Some {
            law_read_number_is_in_range(f[9], 10, u64::MAX as int);
        }
        lemma_row_of(a, b, n);
    }
}

proof fn lemma_row_of(a: Option<(IpAddr, u16)>, b: Option<(IpAddr, u16)>, n: Option<int>)
    ensures
        ({
            let r = match (a, b, n) {
                (Some((lip, lport)), Some((rip, rport)), Some(inode)) => Some(
                    NetRow {
                        local_ip: lip,
                        local_port: lport,
                        rem_ip: rip,
                        rem_port: rport,
                        inode: inode as u64,
                    },
                ),
                _ => None,
            };
            r is Some <==> a is Some && b is Some && n is Some
        }),
{
}

/// The value of two hexadecimal digits.
pub open spec fn octet(a: Seq<char>, at: int) -> int {
    16 * digit_value(a[at])->0 + digit_value(a[at + 1])->0
}

/// The four octets that eight digits from `at` on spell, the last two digits first.
pub open spec fn four_octets(a: Seq<char>, at: int) -> int {
    octet(a, at + 6) * 0x100_0000 + octet(a, at + 4) * 0x1_0000 + octet(a, at + 2) * 0x100 + octet(
        a,
        at,
    )
}

proof fn lemma_eight_digits(a: Seq<char>)
    requires
        a.len() == 8,
        all_digits(a, 16),
    ensures
        unsigned(a, 16, u32::MAX as int) is Some,
        swapped(unsigned(a, 16, u32::MAX as int)->0) == four_octets(a, 0),
        0 <= four_octets(a, 0) <= u32::MAX,
{
    lemma_octet(a, 0);
    lemma_octet(a, 2);
    lemma_octet(a, 4);
    lemma_octet(a, 6);
    assert(a.take(0).len() == 0);
    assert(a.take(8) =~= a);
    lemma_swap(octet(a, 0), octet(a, 2), octet(a, 4), octet(a, 6));
    assert(a[0] != '+') by {
        assert(digit_value(a[0]) is Some);
    }
}

proof fn lemma_octet(a: Seq<char>, i: int)
    requires
        0 <= i < a.len() - 1,
        all_digits(a, 16),
    ensures
        0 <= octet(a, i) < 256,
        digits_value(a.take(i + 2), 16) == 256 * digits_value(a.take(i), 16) + octet(a, i),
{
    lemma_digit_bound(a, i);
    lemma_digit_bound(a, i + 1);
    lemma_one_more(a, i);
    lemma_one_more(a, i + 1);
}

proof fn lemma_swap(b0: int, b1: int, b2: int, b3: int)
    requires
        0 <= b0 < 256,
        0 <= b1 < 256,
        0 <= b2 < 256,
        0 <= b3 < 256,
    ensures
        swapped(b0 * 0x100_0000 + b1 * 0x1_0000 + b2 * 0x100 + b3) == b3 * 0x100_0000 + b2
            * 0x1_0000 + b1 * 0x100 + b0,
{
    let y = b0 * 0x100 + b1;
    let x = b0 * 0x1_0000 + b1 * 0x100 + b2;
    let w = b0 * 0x100_0000 + b1 * 0x1_0000 + b2 * 0x100 + b3;
    lemma_fundamental_div_mod_converse(w, 0x100, x, b3);
    lemma_fundamental_div_mod_converse(x, 0x100, y, b2);
    lemma_fundamental_div_mod_converse(w, 0x1_0000, y, b2 * 0x100 + b3);
    lemma_fundamental_div_mod_converse(y, 0x100, b0, b1);
    lemma_fundamental_div_mod_converse(w, 0x100_0000, b0, b1 * 0x1_0000 + b2 * 0x100 + b3);
}

proof fn lemma_digit_bound(a: Seq<char>, i: int)
    requires
        0 <= i < a.len(),
        all_digits(a, 16),
    ensures
        0 <= digit_value(a[i])->0 < 16,
{
    assert(digit_value(a[i]) is Some);
}

proof fn lemma_one_more(a: Seq<char>, i: int)
    requires
        0 <= i < a.len(),
    ensures
        digits_value(a.take(i + 1), 16) == 16 * digits_value(a.take(i), 16) + digit_value(a[i])->0,
{
    assert(a.take(i + 1).drop_last() =~= a.take(i));
    assert(a.take(i + 1).last() == a[i]);
}

/// Eight hexadecimal digits are an IPv4 address, two digits for each octet, and the last
/// of these is the most significant.
pub proof fn law_hexadecimal_ipv4(a: Seq<char>)
    requires
        a.len() == 8,
        all_digits(a, 16),
    ensures
        hex_address(a) is Some,
        hex_address(a)->0 is V4,
        hex_address(a)->0->V4_0.bits == octet(a, 6) * 0x100_0000 + octet(a, 4) * 0x1_0000 + octet(
            a,
            2,
        ) * 0x100 + octet(a, 0),
{
    lemma_eight_digits(a);
}

/// Thirty-two hexadecimal digits are an IPv6 address: four words of eight digits, the
/// first word first, the octets of each word in the opposite order.
pub proof fn law_hexadecimal_ipv6(a: Seq<char>)
    requires
        a.len() == 32,
        all_digits(a, 16),
    ensures
        hex_address(a) is Some,
        hex_address(a)->0 is V6,
        hex_address(a)->0->V6_0.bits == four_octets(a, 0) * 0x1_0000_0000_0000_0000_0000_0000
            + four_octets(a, 8) * 0x1_0000_0000_0000_0000 + four_octets(a, 16) * 0x1_0000_0000
            + four_octets(a, 24),
{
    lemma_word_at(a, 0);
    lemma_word_at(a, 8);
    lemma_word_at(a, 16);
    lemma_word_at(a, 24);
}

proof fn lemma_word_at(a: Seq<char>, at: int)
    requires
        0 <= at <= a.len() - 8,
        all_digits(a, 16),
    ensures
        unsigned(a.subrange(at, at + 8), 16, u32::MAX as int) is Some,
        swapped(unsigned(a.subrange(at, at + 8), 16, u32::MAX as int)->0) == four_octets(a, at),
        0 <= four_octets(a, at) <= u32::MAX,
{
    let b = a.subrange(at, at + 8);
    assert forall|i: int| 0 <= i < 8 implies digit_value(#[trigger] b[i]) is Some && digit_value(
        b[i],
    )->0 < 16 by {
        assert(b[i] == a[at + i]);
    }
    lemma_eight_digits(b);
}

/// Digits of no other number are an address, and an endpoint is an address, a colon and
/// a port of up to sixteen bits.
pub proof fn law_hexadecimal_endpoint(a: Seq<char>, port: Seq<char>)
    requires
        forall|i: int| 0 <= i < a.len() ==> #[trigger] a[i] != ':',
    ensures
        a.len() != 8 && a.len() != 32 ==> hex_address(a) is None,
        hex_endpoint(a) is None,
        hex_address(a) is Some && unsigned(port, 16, 0xffff) is Some ==> hex_endpoint(
            a + seq![':'] + port,
        ) == Some((hex_address(a)->0, unsigned(port, 16, 0xffff)->0 as u16)),
        hex_address(a) is None || unsigned(port, 16, 0xffff) is None ==> hex_endpoint(
            a + seq![':'] + port,
        ) is None,
{
    law_split_at_the_first(a, ':', port);
}

} // verus!
