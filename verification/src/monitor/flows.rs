//! Owners of flows, remembered after the socket has closed.

use vstd::prelude::*;

use crate::keymap::KeyMap;
use crate::monitor::accum::{counted, law_packet_counts_in_full, Accum};
use crate::monitor::capture::{frame_sample, parse_frame, Sample};
use crate::monitor::lan::LanRanges;
use crate::monitor::procmap::{FlowId, ProcMap};

verus! {

/// Greatest number of remembered flows. The memory is emptied where a new flow would
/// exceed it.
pub const FLOW_CACHE_MAX: usize = 16_384;

/// The flow that a captured packet belongs to.
pub open spec fn flow_of_sample(s: Sample) -> FlowId {
    FlowId {
        proto: s.proto,
        local_ip: s.local_ip,
        local_port: s.local_port,
        rem_ip: s.rem_ip,
        rem_port: s.rem_port,
    }
}

/// Executables by flow, for flows that were resolved before.
pub struct FlowCache {
    pub flows: KeyMap<FlowId, String>,
}

impl FlowCache {
    pub open spec fn wf(&self) -> bool {
        &&& self.flows.wf()
        &&& self.count() <= FLOW_CACHE_MAX
    }

    /// Number of remembered flows.
    pub open spec fn count(&self) -> nat {
        self.flows.entries@.len()
    }

    /// The executable remembered for a flow.
    pub open spec fn remembered(&self, id: FlowId) -> Option<Seq<char>> {
        if self.flows@.dom().contains(id) {
            Some(self.flows@[id]@)
        } else {
            None
        }
    }

    /// Whether remembering a flow would exceed the limit: it is new, and the memory
    /// is full.
    pub open spec fn overflows(&self, id: FlowId) -> bool {
        self.remembered(id) is None && self.count() >= FLOW_CACHE_MAX
    }

    /// A memory without flows.
    pub fn new() -> (r: FlowCache)
        ensures
            r.wf(),
            r.count() == 0,
            forall|id: FlowId| #[trigger] r.remembered(id) is None,
    {
        FlowCache { flows: KeyMap::new() }
    }

    /// Attribute a packet to an executable. The owner found among the live sockets
    /// is authoritative, and is remembered; a flow without a live socket goes to its
    /// remembered owner, or to none (the empty path).
    pub fn resolve(&mut self, pm: &ProcMap, s: &Sample) -> (exe: String)
        requires
            old(self).wf(),
            pm.wf(),
        ensures
            final(self).wf(),
            resolves(*old(self), *pm, *s, exe@, *final(self)),
    {
        let id: FlowId = FlowId {
            proto: s.proto,
            local_ip: s.local_ip,
            local_port: s.local_port,
            rem_ip: s.rem_ip,
            rem_port: s.rem_port,
        };
        match pm.lookup(s.proto, s.local_ip, s.local_port, s.rem_ip, s.rem_port) {
            Some(owner) => {
                if self.flows.len() >= FLOW_CACHE_MAX && self.flows.get(id).is_none() {
                    self.flows.clear();
                }
                self.flows.insert(id, owner.exe.clone());
                owner.exe.clone()
            },
            None => match self.flows.get(id) {
                Some(exe) => exe.clone(),
                None => String::new(),
            },
        }
    }
}

/// How a packet is attributed: it goes to the owner among the live sockets, which is
/// remembered; a flow without a live socket goes to its remembered owner, or to none.
pub open spec fn resolves(
    before: FlowCache,
    pm: ProcMap,
    s: Sample,
    exe: Seq<char>,
    after: FlowCache,
) -> bool {
    let id = flow_of_sample(s);
    match pm.owner(id) {
        Some(o) => {
            &&& exe == o.exe@
            &&& after.remembered(id) == Some(o.exe@)
            &&& forall|other: FlowId|
                other != id ==> #[trigger] after.remembered(other) == if before.overflows(id) {
                    None
                } else {
                    before.remembered(other)
                }
            &&& after.count() == if before.overflows(id) {
                1
            } else if before.remembered(id) is Some {
                before.count()
            } else {
                before.count() + 1
            }
        },
        None => {
            &&& exe == match before.remembered(id) {
                Some(e) => e,
                None => Seq::empty(),
            }
            &&& forall|other: FlowId| #[trigger]
                after.remembered(other) == before.remembered(other)
            &&& after.count() == before.count()
        },
    }
}

/// A packet goes to the live owner of its flow, whatever was remembered of the flow:
/// the traffic of a reused port goes to the application that uses it now.
pub proof fn law_live_owner_wins(
    before: FlowCache,
    pm: ProcMap,
    s: Sample,
    exe: Seq<char>,
    after: FlowCache,
)
    requires
        pm.owner(flow_of_sample(s)) is Some,
        resolves(before, pm, s, exe, after),
    ensures
        exe == pm.owner(flow_of_sample(s))->0.exe@,
{
}

/// Trailing packets of a connection whose socket has closed go to the executable
/// that the packet before went to.
pub proof fn law_closed_flow_keeps_owner(
    before: FlowCache,
    open: ProcMap,
    first: Seq<char>,
    between: FlowCache,
    closed: ProcMap,
    second: Seq<char>,
    after: FlowCache,
    s: Sample,
)
    requires
        open.owner(flow_of_sample(s)) is Some,
        closed.owner(flow_of_sample(s)) is None,
        resolves(before, open, s, first, between),
        resolves(between, closed, s, second, after),
    ensures
        second == first,
        after.remembered(flow_of_sample(s)) == Some(first),
{
}

/// What a captured frame does to the remembered flows and to the counters. Frames
/// that are not counted change nothing.
pub open spec fn observed(
    cache: FlowCache,
    acc: Accum,
    buf: Seq<u8>,
    outgoing: bool,
    pm: ProcMap,
    lan: LanRanges,
    cache_after: FlowCache,
    acc_after: Accum,
) -> bool {
    match frame_sample(buf, outgoing) {
        Some(s) => exists|exe: Seq<char>|
            {
                &&& #[trigger] resolves(cache, pm, s, exe, cache_after)
                &&& counted(acc, exe, outgoing, s.bytes, lan.is_lan(s.rem_ip), acc_after)
            },
        None => cache_after == cache && acc_after == acc,
    }
}

/// Attribute a captured frame and count it. Frames that are not counted change
/// nothing.
pub fn observe(
    buf: &[u8],
    outgoing: bool,
    pm: &ProcMap,
    lan: &LanRanges,
    cache: &mut FlowCache,
    acc: &mut Accum,
)
    requires
        pm.wf(),
        old(cache).wf(),
        old(acc).wf(),
        frame_sample(buf@, outgoing) is Some ==> old(acc).host.room(
            outgoing,
            frame_sample(buf@, outgoing)->0.bytes,
        ),
    ensures
        final(cache).wf(),
        final(acc).wf(),
        observed(*old(cache), *old(acc), buf@, outgoing, *pm, *lan, *final(cache), *final(acc)),
{
    match parse_frame(buf, outgoing) {
        Some(s) => {
            proof {
                lemma_sample_direction(buf@, outgoing);
            }
            let exe: String = cache.resolve(pm, &s);
            let is_lan: bool = lan.contains(s.rem_ip);
            acc.record(exe.as_str(), s.outgoing, s.bytes, is_lan);
        },
        None => {},
    }
}

proof fn lemma_sample_direction(buf: Seq<u8>, outgoing: bool)
    ensures
        frame_sample(buf, outgoing) is Some ==> frame_sample(buf, outgoing)->0.outgoing
            == outgoing,
{
}

/// A captured packet goes in full to the application that owns its flow at the moment,
/// and to the host.
pub proof fn law_packet_goes_to_its_owner(
    cache: FlowCache,
    acc: Accum,
    buf: Seq<u8>,
    outgoing: bool,
    pm: ProcMap,
    lan: LanRanges,
    cache_after: FlowCache,
    acc_after: Accum,
    s: Sample,
    id: FlowId,
)
    requires
        acc.wf(),
        frame_sample(buf, outgoing) == Some(s),
        acc.host.room(outgoing, s.bytes),
        observed(cache, acc, buf, outgoing, pm, lan, cache_after, acc_after),
        id.proto == s.proto,
        id.local_ip == s.local_ip,
        id.local_port == s.local_port,
        id.rem_ip == s.rem_ip,
        id.rem_port == s.rem_port,
        pm.owner(id) is Some,
    ensures
        ({
            let exe = pm.owner(id)->0.exe@;
            let (x, y) = (acc.app(exe), acc_after.app(exe));
            &&& cache_after.remembered(id) == Some(exe)
            &&& outgoing ==> y.total.up == x.total.up + s.bytes && y.total.down == x.total.down
            &&& !outgoing ==> y.total.down == x.total.down + s.bytes && y.total.up == x.total.up
            &&& outgoing ==> acc_after.host.up == acc.host.up + s.bytes
            &&& !outgoing ==> acc_after.host.down == acc.host.down + s.bytes
            &&& outgoing && lan.is_lan(s.rem_ip) ==> acc_after.lan.up == acc.lan.up + s.bytes
            &&& !outgoing && lan.is_lan(s.rem_ip) ==> acc_after.lan.down == acc.lan.down + s.bytes
            &&& outgoing && !lan.is_lan(s.rem_ip) ==> acc_after.internet.up == acc.internet.up
                + s.bytes
            &&& !outgoing && !lan.is_lan(s.rem_ip) ==> acc_after.internet.down
                == acc.internet.down + s.bytes
            &&& forall|other: Seq<char>|
                other != exe ==> #[trigger] acc_after.app(other) == acc.app(other)
        }),
{
    assert(flow_of_sample(s) == id);
    let exe = choose|exe: Seq<char>|
        {
            &&& #[trigger] resolves(cache, pm, s, exe, cache_after)
            &&& counted(acc, exe, outgoing, s.bytes, lan.is_lan(s.rem_ip), acc_after)
        };
    law_packet_counts_in_full(acc, exe, outgoing, s.bytes, lan.is_lan(s.rem_ip), acc_after);
}

/// A packet without a live owner goes to the application that its flow was remembered
/// for, or to the traffic without a known owner. Either way the host counts it.
pub proof fn law_packet_without_owner_is_counted(
    cache: FlowCache,
    acc: Accum,
    buf: Seq<u8>,
    outgoing: bool,
    pm: ProcMap,
    lan: LanRanges,
    cache_after: FlowCache,
    acc_after: Accum,
    s: Sample,
    id: FlowId,
)
    requires
        acc.wf(),
        frame_sample(buf, outgoing) == Some(s),
        acc.host.room(outgoing, s.bytes),
        observed(cache, acc, buf, outgoing, pm, lan, cache_after, acc_after),
        id.proto == s.proto,
        id.local_ip == s.local_ip,
        id.local_port == s.local_port,
        id.rem_ip == s.rem_ip,
        id.rem_port == s.rem_port,
        pm.owner(id) is None,
    ensures
        ({
            let exe = if cache.remembered(id) is Some {
                cache.remembered(id)->0
            } else {
                Seq::empty()
            };
            let (x, y) = (acc.app(exe), acc_after.app(exe));
            &&& outgoing ==> y.total.up == x.total.up + s.bytes && y.total.down == x.total.down
            &&& !outgoing ==> y.total.down == x.total.down + s.bytes && y.total.up == x.total.up
            &&& outgoing ==> acc_after.host.up == acc.host.up + s.bytes
            &&& !outgoing ==> acc_after.host.down == acc.host.down + s.bytes
            &&& forall|other: FlowId| #[trigger]
                cache_after.remembered(other) == cache.remembered(other)
        }),
{
    assert(flow_of_sample(s) == id);
    let exe = choose|exe: Seq<char>|
        {
            &&& #[trigger] resolves(cache, pm, s, exe, cache_after)
            &&& counted(acc, exe, outgoing, s.bytes, lan.is_lan(s.rem_ip), acc_after)
        };
    law_packet_counts_in_full(acc, exe, outgoing, s.bytes, lan.is_lan(s.rem_ip), acc_after);
}

/// A flow is forgotten only when the memory holds 16384 flows and a new one comes.
pub proof fn law_flows_are_kept(
    before: FlowCache,
    pm: ProcMap,
    s: Sample,
    exe: Seq<char>,
    after: FlowCache,
    other: FlowId,
)
    requires
        resolves(before, pm, s, exe, after),
        before.remembered(other) is Some,
        before.count() < 16384,
    ensures
        after.remembered(other) is Some,
        other != flow_of_sample(s) ==> after.remembered(other) == before.remembered(other),
{
}

/// Where the memory holds 16384 flows and a new one comes, it is emptied and holds that
/// one alone.
pub proof fn law_full_memory_starts_again(
    before: FlowCache,
    pm: ProcMap,
    s: Sample,
    exe: Seq<char>,
    after: FlowCache,
)
    requires
        resolves(before, pm, s, exe, after),
        pm.owner(flow_of_sample(s)) is Some,
        before.remembered(flow_of_sample(s)) is None,
        before.count() >= 16384,
    ensures
        after.count() == 1,
        after.remembered(flow_of_sample(s)) == Some(exe),
{
}

} // verus!
