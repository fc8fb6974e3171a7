//! The traffic monitor as a whole.

use vstd::prelude::*;

use crate::monitor::accum::{sampled, Accum, Counter};
use crate::monitor::capture::{frame_sample, parse_frame};
use crate::monitor::flows::{observe, observed, FlowCache};
use crate::monitor::lan::LanRanges;
use crate::monitor::procmap::{FlowId, ProcMap};
use crate::proto::{HostTotals, MonitorSnapshot};

verus! {

/// Counters of live traffic, with what is needed to attribute it, and the latest
/// snapshot.
pub struct Monitor {
    pub accum: Accum,
    pub cache: FlowCache,
    /// Owners of sockets, refreshed at intervals.
    pub procmap: ProcMap,
    /// Local address ranges, refreshed with them.
    pub lan: LanRanges,
    pub snapshot: MonitorSnapshot,
}

impl Monitor {
    pub open spec fn wf(&self) -> bool {
        &&& self.accum.wf()
        &&& self.cache.wf()
        &&& self.procmap.wf()
    }

    /// Begin to monitor.
    pub fn start(procmap: ProcMap, lan: LanRanges) -> (r: Monitor)
        requires
            procmap.wf(),
        ensures
            r.wf(),
            r.procmap == procmap,
            r.lan == lan,
            r.accum.host == Counter::zero(),
            r.accum.lan == Counter::zero(),
            r.accum.internet == Counter::zero(),
            r.cache.count() == 0,
            forall|exe: Seq<char>| !#[trigger] r.accum.apps@.dom().contains(exe),
            forall|id: FlowId| #[trigger] r.cache.remembered(id) is None,
            r.snapshot.apps@.len() == 0,
            r.snapshot.host == HostTotals::zero(),
            r.snapshot.timestamp_ms == 0,
    {
        Monitor {
            accum: Accum::new(),
            cache: FlowCache::new(),
            procmap,
            lan,
            snapshot: MonitorSnapshot::default(),
        }
    }

    /// Take over fresh owners of sockets and fresh local ranges.
    pub fn refresh(&mut self, procmap: ProcMap, lan: LanRanges)
        requires
            old(self).wf(),
            procmap.wf(),
        ensures
            final(self).wf(),
            *final(self) == (Monitor { procmap, lan, ..*old(self) }),
    {
        self.procmap = procmap;
        self.lan = lan;
    }

    /// Whether the bytes of a captured frame can be counted.
    pub open spec fn has_room(&self, buf: Seq<u8>, outgoing: bool) -> bool {
        frame_sample(buf, outgoing) is Some ==> self.accum.host.room(
            outgoing,
            frame_sample(buf, outgoing)->0.bytes,
        )
    }

    /// Whether the bytes of a captured frame can be counted.
    pub fn can_capture(&self, buf: &[u8], outgoing: bool) -> (r: bool)
        ensures
            r == self.has_room(buf@, outgoing),
    {
        match parse_frame(buf, outgoing) {
            Some(s) => self.accum.has_room(outgoing, s.bytes),
            None => true,
        }
    }

    /// Attribute a captured frame and count it.
    pub fn capture(&mut self, buf: &[u8], outgoing: bool)
        requires
            old(self).wf(),
            old(self).has_room(buf@, outgoing),
        ensures
            final(self).wf(),
            observed(
                old(self).cache,
                old(self).accum,
                buf@,
                outgoing,
                old(self).procmap,
                old(self).lan,
                final(self).cache,
                final(self).accum,
            ),
            final(self).procmap == old(self).procmap,
            final(self).lan == old(self).lan,
            final(self).snapshot == old(self).snapshot,
    {
        observe(buf, outgoing, &self.procmap, &self.lan, &mut self.cache, &mut self.accum);
    }

    /// Take a sample and keep it as the latest snapshot.
    pub fn sample(&mut self, now_ms: u64)
        requires
            old(self).wf(),
        ensures
            final(self).wf(),
            sampled(
                old(self).accum,
                old(self).procmap,
                now_ms,
                final(self).accum,
                final(self).snapshot,
            ),
            final(self).cache == old(self).cache,
            final(self).procmap == old(self).procmap,
            final(self).lan == old(self).lan,
    {
        self.snapshot = self.accum.sample(&self.procmap, now_ms);
    }

    /// The latest snapshot.
    pub fn snapshot(&self) -> (r: &MonitorSnapshot)
        ensures
            *r == self.snapshot,
    {
        &self.snapshot
    }
}

} // verus!
