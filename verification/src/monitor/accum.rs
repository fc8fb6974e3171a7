//! Byte counters of each application and of the host, and the snapshot that one
//! sample of them gives.

use std::collections::VecDeque;

use vstd::prelude::*;

use crate::monitor::procmap::ProcMap;
use crate::order::{is_sorting, sorted, Busiest, Ranked};
use crate::proto::{AppStat, AppStatus, HostTotals, MonitorSnapshot};
use crate::table::{has_key, key_index, Table};
use crate::text::{base_of, basename};

verus! {

/// How many recent rate samples are kept of each application.
pub const SPARK_LEN: usize = 60;

/// An application is dropped after more than this many consecutive idle samples
/// without a live process.
pub const IDLE_EVICT: u32 = 60;

/// Display name of traffic whose owner is not known.
pub const UNRESOLVED: &'static str = "(unresolved)";

/// A pair of cumulative byte counters with their values at the previous sample.
#[derive(Debug, Clone, Copy, PartialEq, Eq, Structural)]
pub struct Counter {
    pub down: u64,
    pub up: u64,
    pub last_down: u64,
    pub last_up: u64,
}

impl Counter {
    /// A counter at zero.
    pub open spec fn zero() -> Counter {
        Counter { down: 0, up: 0, last_down: 0, last_up: 0 }
    }

    /// The counters never fall behind their previous values.
    pub open spec fn wf(self) -> bool {
        self.last_down <= self.down && self.last_up <= self.up
    }

    /// The counter after `bytes` more in one direction.
    pub open spec fn counting(self, outgoing: bool, bytes: u64) -> Counter {
        if outgoing {
            Counter { up: (self.up + bytes) as u64, ..self }
        } else {
            Counter { down: (self.down + bytes) as u64, ..self }
        }
    }

    /// Whether `bytes` more fit in one direction.
    pub open spec fn room(self, outgoing: bool, bytes: u64) -> bool {
        if outgoing {
            self.up + bytes <= u64::MAX
        } else {
            self.down + bytes <= u64::MAX
        }
    }

    /// The counter with its cursor moved up to the present values.
    pub open spec fn advanced(self) -> Counter {
        Counter { last_down: self.down, last_up: self.up, ..self }
    }

    /// Whether `self` is the sum of `a` and `b`, now and at the previous sample.
    pub open spec fn is_sum(self, a: Counter, b: Counter) -> bool {
        &&& self.down == a.down + b.down
        &&& self.up == a.up + b.up
        &&& self.last_down == a.last_down + b.last_down
        &&& self.last_up == a.last_up + b.last_up
    }

    /// A counter at zero.
    pub fn new() -> (r: Counter)
        ensures
            r == Counter::zero(),
    {
        Counter { down: 0, up: 0, last_down: 0, last_up: 0 }
    }

    /// Count bytes in one direction.
    pub fn count(&mut self, outgoing: bool, bytes: u64)
        requires
            old(self).room(outgoing, bytes),
        ensures
            *final(self) == old(self).counting(outgoing, bytes),
    {
        if outgoing {
            self.up = self.up + bytes;
        } else {
            self.down = self.down + bytes;
        }
    }

    /// Bytes down and up since the last call; advances the cursor.
    pub fn rates(&mut self) -> (r: (u64, u64))
        requires
            old(self).wf(),
        ensures
            r.0 == old(self).down - old(self).last_down,
            r.1 == old(self).up - old(self).last_up,
            *final(self) == old(self).advanced(),
    {
        let d: u64 = self.down - self.last_down;
        let u: u64 = self.up - self.last_up;
        self.last_down = self.down;
        self.last_up = self.up;
        (d, u)
    }
}

/// A history after one more sample: at most [`SPARK_LEN`] values, the oldest
/// dropped.
pub open spec fn spark_after(spark: Seq<u32>, v: u32) -> Seq<u32> {
    if spark.len() == SPARK_LEN {
        spark.skip(1).push(v)
    } else {
        spark.push(v)
    }
}

/// Append a sample to a history.
pub fn push_spark(spark: &mut VecDeque<u32>, v: u32)
    ensures
        final(spark)@ == spark_after(old(spark)@, v),
{
    if spark.len() == SPARK_LEN {
        let _ = spark.pop_front();
        assert(spark@ =~= old(spark)@.skip(1));
    }
    spark.push_back(v);
}

/// A rate as a history keeps it: its low 32 bits.
pub open spec fn spark_value(rate: u64) -> u32 {
    (rate % 0x1_0000_0000) as u32
}

/// The running counters of one application.
pub struct AppAccum {
    pub total: Counter,
    /// The part of the traffic that goes to LAN addresses.
    pub lan: Counter,
    /// The part of the traffic that goes to other addresses.
    pub internet: Counter,
    pub down_spark: VecDeque<u32>,
    pub up_spark: VecDeque<u32>,
    /// Consecutive samples without traffic and without a live process.
    pub idle: u32,
}

/// The counters of one application as a value.
pub struct AppModel {
    pub total: Counter,
    pub lan: Counter,
    pub internet: Counter,
    pub down_spark: Seq<u32>,
    pub up_spark: Seq<u32>,
    pub idle: u32,
}

impl AppModel {
    /// An application that was not seen yet.
    pub open spec fn fresh() -> AppModel {
        AppModel {
            total: Counter::zero(),
            lan: Counter::zero(),
            internet: Counter::zero(),
            down_spark: Seq::empty(),
            up_spark: Seq::empty(),
            idle: 0,
        }
    }

    pub open spec fn wf(self) -> bool {
        &&& self.total.wf()
        &&& self.lan.wf()
        &&& self.internet.wf()
        &&& self.total.is_sum(self.lan, self.internet)
        &&& self.down_spark.len() <= SPARK_LEN
        &&& self.up_spark.len() <= SPARK_LEN
        &&& self.idle <= IDLE_EVICT
    }

    /// Bytes per second downloaded since the previous sample.
    pub open spec fn down_rate(self) -> u64 {
        (self.total.down - self.total.last_down) as u64
    }

    /// Bytes per second uploaded since the previous sample.
    pub open spec fn up_rate(self) -> u64 {
        (self.total.up - self.total.last_up) as u64
    }

    /// Whether a sample finds neither traffic nor a live process.
    pub open spec fn quiet(self, pids: u32) -> bool {
        self.down_rate() == 0 && self.up_rate() == 0 && pids == 0
    }

    /// Whether a sample drops the application.
    pub open spec fn expires(self, pids: u32) -> bool {
        self.quiet(pids) && self.idle == IDLE_EVICT
    }

    /// The counters after bytes of one packet.
    pub open spec fn counting(self, outgoing: bool, bytes: u64, is_lan: bool) -> AppModel {
        AppModel {
            total: self.total.counting(outgoing, bytes),
            lan: if is_lan {
                self.lan.counting(outgoing, bytes)
            } else {
                self.lan
            },
            internet: if is_lan {
                self.internet
            } else {
                self.internet.counting(outgoing, bytes)
            },
            ..self
        }
    }

    /// The counters after a sample.
    pub open spec fn sampled(self, pids: u32) -> AppModel {
        AppModel {
            total: self.total.advanced(),
            lan: self.lan.advanced(),
            internet: self.internet.advanced(),
            down_spark: spark_after(self.down_spark, spark_value(self.down_rate())),
            up_spark: spark_after(self.up_spark, spark_value(self.up_rate())),
            idle: if self.quiet(pids) {
                (self.idle + 1) as u32
            } else {
                0
            },
        }
    }
}

impl View for AppAccum {
    type V = AppModel;

    open spec fn view(&self) -> AppModel {
        AppModel {
            total: self.total,
            lan: self.lan,
            internet: self.internet,
            down_spark: self.down_spark@,
            up_spark: self.up_spark@,
            idle: self.idle,
        }
    }
}

/// Display name of the traffic of an executable.
pub open spec fn shown_name(exe: Seq<char>) -> Seq<char> {
    if exe.len() == 0 {
        UNRESOLVED@
    } else {
        base_of(exe)
    }
}

/// What a sample reports of an application whose counters were `a`.
pub open spec fn reports(s: AppStat, exe: Seq<char>, a: AppModel, pids: u32) -> bool {
    &&& s.exe@ == exe
    &&& s.name@ == shown_name(exe)
    &&& s.pids == pids
    &&& s.down_bps == a.down_rate()
    &&& s.up_bps == a.up_rate()
    &&& s.down_total == a.total.down
    &&& s.up_total == a.total.up
    &&& s.down_spark@ == a.sampled(pids).down_spark
    &&& s.up_spark@ == a.sampled(pids).up_spark
    &&& s.status == AppStatus::Watching
    &&& s.lan_down_bps == a.lan.down - a.lan.last_down
    &&& s.lan_up_bps == a.lan.up - a.lan.last_up
    &&& s.inet_down_bps == a.internet.down - a.internet.last_down
    &&& s.inet_up_bps == a.internet.up - a.internet.last_up
}

fn history(spark: &VecDeque<u32>) -> (r: Vec<u32>)
    ensures
        r@ == spark@,
{
    let mut r: Vec<u32> = Vec::new();
    for i in 0..spark.len()
        invariant
            r@ == spark@.take(i as int),
    {
        r.push(spark[i]);
        assert(r@ =~= spark@.take(i + 1));
    }
    assert(r@ =~= spark@);
    r
}

impl AppAccum {
    /// An application that was not seen yet.
    pub fn new() -> (r: AppAccum)
        ensures
            r@ == AppModel::fresh(),
    {
        let r: AppAccum = AppAccum {
            total: Counter::new(),
            lan: Counter::new(),
            internet: Counter::new(),
            down_spark: VecDeque::new(),
            up_spark: VecDeque::new(),
            idle: 0,
        };
        assert(r@.down_spark =~= Seq::empty());
        assert(r@.up_spark =~= Seq::empty());
        r
    }

    /// Count the bytes of one packet.
    pub fn count(&mut self, outgoing: bool, bytes: u64, is_lan: bool)
        requires
            old(self)@.wf(),
            old(self)@.total.room(outgoing, bytes),
        ensures
            final(self)@ == old(self)@.counting(outgoing, bytes, is_lan),
            final(self)@.wf(),
    {
        self.total.count(outgoing, bytes);
        if is_lan {
            self.lan.count(outgoing, bytes);
        } else {
            self.internet.count(outgoing, bytes);
        }
    }

    /// Take one sample: the rates since the previous one join the history.
    pub fn sample(&mut self, exe: &str, pids: u32) -> (r: AppStat)
        requires
            old(self)@.wf(),
        ensures
            final(self)@ == old(self)@.sampled(pids),
            final(self)@.wf() || final(self)@.idle == IDLE_EVICT + 1,
            reports(r, exe@, old(self)@, pids),
    {
        let (down_bps, up_bps) = self.total.rates();
        let (lan_down_bps, lan_up_bps) = self.lan.rates();
        let (inet_down_bps, inet_up_bps) = self.internet.rates();
        push_spark(&mut self.down_spark, (down_bps % 0x1_0000_0000) as u32);
        push_spark(&mut self.up_spark, (up_bps % 0x1_0000_0000) as u32);
        if down_bps == 0 && up_bps == 0 && pids == 0 {
            self.idle = self.idle + 1;
        } else {
            self.idle = 0;
        }
        let name: String = if exe.is_empty() {
            UNRESOLVED.to_string()
        } else {
            basename(exe)
        };
        AppStat {
            exe: exe.to_string(),
            name,
            pids,
            down_bps,
            up_bps,
            down_total: self.total.down,
            up_total: self.total.up,
            down_spark: history(&self.down_spark),
            up_spark: history(&self.up_spark),
            status: AppStatus::Watching,
            lan_down_bps,
            lan_up_bps,
            inet_down_bps,
            inet_up_bps,
        }
    }
}

/// All byte counters.
pub struct Accum {
    /// Keyed by executable path; the empty path stands for traffic whose owner
    /// is not known.
    pub apps: Table<AppAccum>,
    pub host: Counter,
    /// Host traffic to LAN addresses.
    pub lan: Counter,
    /// Host traffic to other addresses.
    pub internet: Counter,
}

/// Whether a sample of these counters reports the application `exe`.
pub open spec fn survives(apps: Map<Seq<char>, AppAccum>, pm: ProcMap, exe: Seq<char>) -> bool {
    apps.dom().contains(exe) && !apps[exe]@.expires(pm.pid_count(exe))
}

/// Counting the bytes of one packet for its application, its zone and the host
/// leads from `a` to `b`.
pub open spec fn counted(
    a: Accum,
    exe: Seq<char>,
    outgoing: bool,
    bytes: u64,
    is_lan: bool,
    b: Accum,
) -> bool {
    &&& b.apps@.dom() == a.apps@.dom().insert(exe)
    &&& b.app(exe) == a.app(exe).counting(outgoing, bytes, is_lan)
    &&& forall|other: Seq<char>| other != exe ==> #[trigger] b.app(other) == a.app(other)
    &&& b.host == a.host.counting(outgoing, bytes)
    &&& b.lan == if is_lan {
        a.lan.counting(outgoing, bytes)
    } else {
        a.lan
    }
    &&& b.internet == if is_lan {
        a.internet
    } else {
        a.internet.counting(outgoing, bytes)
    }
}

/// Whether a list holds the given text.
spec fn lists(v: Seq<String>, t: Seq<char>) -> bool {
    exists|j: int| 0 <= j < v.len() && (#[trigger] v[j])@ == t
}

/// Whether a list of reports holds exactly one for each surviving application.
pub open spec fn covers_apps(
    stats: Seq<AppStat>,
    apps: Map<Seq<char>, AppAccum>,
    pm: ProcMap,
) -> bool {
    &&& forall|i: int|
        #![trigger stats[i]]
        0 <= i < stats.len() ==> survives(apps, pm, stats[i].exe@) && reports(
            stats[i],
            stats[i].exe@,
            apps[stats[i].exe@]@,
            pm.pid_count(stats[i].exe@),
        )
    &&& forall|i: int, j: int|
        0 <= i < j < stats.len() ==> (#[trigger] stats[i]).exe@ != (#[trigger] stats[j]).exe@
    &&& forall|exe: Seq<char>| #[trigger]
        survives(apps, pm, exe) ==> exists|i: int|
            0 <= i < stats.len() && (#[trigger] stats[i]).exe@ == exe
}

/// Taking a sample leads from `a` to `b` and gives the snapshot `r`: applications
/// come busiest first, and those idle for too long are dropped.
pub open spec fn sampled(a: Accum, pm: ProcMap, now_ms: u64, b: Accum, r: MonitorSnapshot) -> bool {
    &&& forall|exe: Seq<char>| #[trigger]
        b.apps@.dom().contains(exe) <==> survives(a.apps@, pm, exe)
    &&& forall|exe: Seq<char>| #[trigger]
        b.apps@.dom().contains(exe) ==> b.apps@[exe]@ == a.apps@[exe]@.sampled(pm.pid_count(exe))
    &&& b.host == a.host.advanced()
    &&& b.lan == a.lan.advanced()
    &&& b.internet == a.internet.advanced()
    &&& covers_apps(r.apps@, a.apps@, pm)
    &&& forall|i: int, j: int|
        0 <= i < j < r.apps@.len() ==> r.apps@[i].down_bps + r.apps@[i].up_bps
            >= r.apps@[j].down_bps + r.apps@[j].up_bps
    &&& r.host == (HostTotals {
        down_bps: (a.host.down - a.host.last_down) as u64,
        up_bps: (a.host.up - a.host.last_up) as u64,
        down_total: a.host.down,
        up_total: a.host.up,
        lan_down_bps: (a.lan.down - a.lan.last_down) as u64,
        lan_up_bps: (a.lan.up - a.lan.last_up) as u64,
        inet_down_bps: (a.internet.down - a.internet.last_down) as u64,
        inet_up_bps: (a.internet.up - a.internet.last_up) as u64,
    })
    &&& r.timestamp_ms == now_ms
}

impl Accum {
    /// Traffic is counted once for the host, once for its zone and once for its
    /// application.
    pub open spec fn wf(&self) -> bool {
        &&& self.apps.wf()
        &&& self.host.wf()
        &&& self.lan.wf()
        &&& self.internet.wf()
        &&& self.host.is_sum(self.lan, self.internet)
        &&& forall|exe: Seq<char>| #[trigger]
            self.apps@.dom().contains(exe) ==> self.apps@[exe]@.wf()
        &&& forall|exe: Seq<char>| #[trigger]
            self.apps@.dom().contains(exe) ==> self.apps@[exe]@.total.down <= self.host.down
                && self.apps@[exe]@.total.up <= self.host.up
    }

    /// The counters of an application, those of a new one where it has none.
    pub open spec fn app(&self, exe: Seq<char>) -> AppModel {
        if self.apps@.dom().contains(exe) {
            self.apps@[exe]@
        } else {
            AppModel::fresh()
        }
    }

    /// Counters at zero.
    pub fn new() -> (r: Accum)
        ensures
            r.wf(),
            r.apps@ == Map::<Seq<char>, AppAccum>::empty(),
            r.host == Counter::zero(),
            r.lan == Counter::zero(),
            r.internet == Counter::zero(),
    {
        Accum {
            apps: Table::new(),
            host: Counter::new(),
            lan: Counter::new(),
            internet: Counter::new(),
        }
    }

    /// Whether the host counter has room for more bytes in one direction.
    pub fn has_room(&self, outgoing: bool, bytes: u64) -> (r: bool)
        ensures
            r == self.host.room(outgoing, bytes),
    {
        if outgoing {
            bytes <= u64::MAX - self.host.up
        } else {
            bytes <= u64::MAX - self.host.down
        }
    }

    /// Count the bytes of one packet for its application, its zone and the host.
    pub fn record(&mut self, exe: &str, outgoing: bool, bytes: u64, is_lan: bool)
        requires
            old(self).wf(),
            old(self).host.room(outgoing, bytes),
        ensures
            final(self).wf(),
            counted(*old(self), exe@, outgoing, bytes, is_lan, *final(self)),
    {
        let mut app: AppAccum = match self.apps.remove(exe) {
            Some(a) => a,
            None => AppAccum::new(),
        };
        assert(app@ == old(self).app(exe@));
        app.count(outgoing, bytes, is_lan);
        let ghost now = app@;
        self.apps.insert(exe.to_string(), app);
        if is_lan {
            self.lan.count(outgoing, bytes);
        } else {
            self.internet.count(outgoing, bytes);
        }
        self.host.count(outgoing, bytes);
        proof {
            assert(self.apps@[exe@]@ == now);
            assert(self.apps@.dom() =~= old(self).apps@.dom().insert(exe@));
            assert forall|other: Seq<char>| #[trigger]
                self.apps@.dom().contains(other) implies self.apps@[other]@.wf()
                && self.apps@[other]@.total.down <= self.host.down && self.apps@[other]@.total.up
                <= self.host.up by {
                if other != exe@ {
                    assert(old(self).apps@.dom().contains(other));
                }
            }
        }
    }

    /// Turn the counters into rates and histories. Applications come busiest
    /// first; those idle for too long are dropped.
    pub fn sample(&mut self, pm: &ProcMap, now_ms: u64) -> (r: MonitorSnapshot)
        requires
            old(self).wf(),
            pm.wf(),
        ensures
            final(self).wf(),
            sampled(*old(self), *pm, now_ms, *final(self), r),
    {
        let (stats, evict) = self.sample_apps(pm);
        let ghost stepped = self.apps@;
        assert(evict@.take(0) =~= Seq::<String>::empty());
        for k in 0..evict.len()
            invariant
                self.apps.wf(),
                self.host == old(self).host,
                self.lan == old(self).lan,
                self.internet == old(self).internet,
                forall|exe: Seq<char>| #[trigger]
                    self.apps@.dom().contains(exe) <==> stepped.dom().contains(exe) && !lists(
                        evict@.take(k as int),
                        exe,
                    ),
                forall|exe: Seq<char>| #[trigger]
                    self.apps@.dom().contains(exe) ==> self.apps@[exe] == stepped[exe],
        {
            let ghost before = self.apps@;
            let _ = self.apps.remove(evict[k].as_str());
            proof {
                assert forall|exe: Seq<char>| #[trigger]
                    self.apps@.dom().contains(exe) <==> stepped.dom().contains(exe) && !lists(
                        evict@.take(k + 1),
                        exe,
                    ) by {
                    let shorter = evict@.take(k as int);
                    let longer = evict@.take(k + 1);
                    assert(before.dom().contains(exe) <==> stepped.dom().contains(exe) && !lists(
                        shorter,
                        exe,
                    ));
                    if lists(shorter, exe) {
                        let x = choose|x: int|
                            0 <= x < shorter.len() && (#[trigger] shorter[x])@ == exe;
                        assert(longer[x]@ == exe);
                    }
                    if lists(longer, exe) {
                        let x = choose|x: int|
                            0 <= x < longer.len() && (#[trigger] longer[x])@ == exe;
                        if x < k {
                            assert(shorter[x]@ == exe);
                        }
                    }
                    assert(longer[k as int]@ == evict@[k as int]@);
                }
                assert forall|exe: Seq<char>| #[trigger]
                    self.apps@.dom().contains(exe) implies self.apps@[exe] == stepped[exe] by {
                    assert(before.dom().contains(exe));
                }
            }
        }
        proof {
            assert(evict@.take(evict@.len() as int) =~= evict@);
            assert forall|exe: Seq<char>| #[trigger]
                self.apps@.dom().contains(exe) <==> survives(old(self).apps@, *pm, exe) by {
                if self.apps@.dom().contains(exe) {
                    assert(stepped.dom().contains(exe));
                }
                if survives(old(self).apps@, *pm, exe) {
                    assert(stepped.dom().contains(exe));
                }
            }
        }
        let (host_down_bps, host_up_bps) = self.host.rates();
        let (lan_down_bps, lan_up_bps) = self.lan.rates();
        let (inet_down_bps, inet_up_bps) = self.internet.rates();
        let host: HostTotals = HostTotals {
            down_bps: host_down_bps,
            up_bps: host_up_bps,
            down_total: self.host.down,
            up_total: self.host.up,
            lan_down_bps,
            lan_up_bps,
            inet_down_bps,
            inet_up_bps,
        };
        MonitorSnapshot {
            apps: busiest_first(stats, Ghost(old(self).apps@), Ghost(*pm)),
            host,
            timestamp_ms: now_ms,
        }
    }

    /// Sample every application; those to drop are listed apart.
    fn sample_apps(&mut self, pm: &ProcMap) -> (r: (Vec<AppStat>, Vec<String>))
        requires
            old(self).wf(),
            pm.wf(),
        ensures
            final(self).apps.wf(),
            final(self).host == old(self).host,
            final(self).lan == old(self).lan,
            final(self).internet == old(self).internet,
            final(self).apps@.dom() == old(self).apps@.dom(),
            forall|exe: Seq<char>| #[trigger]
                final(self).apps@.dom().contains(exe) ==> final(self).apps@[exe]@
                    == old(self).apps@[exe]@.sampled(pm.pid_count(exe)),
            covers_apps(r.0@, old(self).apps@, *pm),
            forall|exe: Seq<char>| #[trigger]
                lists(r.1@, exe) <==> old(self).apps@.dom().contains(exe) && !survives(
                    old(self).apps@,
                    *pm,
                    exe,
                ),
    {
        let mut stats: Vec<AppStat> = Vec::new();
        let mut evict: Vec<String> = Vec::new();
        let ghost was = self.apps.entries@;
        let ghost model = old(self).apps@;
        let ghost from: Seq<int> = Seq::empty();
        let ghost gone: Seq<int> = Seq::empty();
        let n: usize = self.apps.entries.len();
        let mut i: usize = 0;
        while i < n
            invariant
                old(self).wf(),
                pm.wf(),
                was == old(self).apps.entries@,
                model == old(self).apps@,
                n == was.len(),
                i <= n,
                self.host == old(self).host,
                self.lan == old(self).lan,
                self.internet == old(self).internet,
                self.apps.entries@.len() == n,
                forall|j: int| 0 <= j < n ==> (#[trigger] self.apps.entries@[j]).0 == was[j].0,
                forall|j: int| i <= j < n ==> (#[trigger] self.apps.entries@[j]).1 == was[j].1,
                forall|j: int|
                    0 <= j < i ==> (#[trigger] self.apps.entries@[j]).1@ == was[j].1@.sampled(
                        pm.pid_count(was[j].0@),
                    ),
                from.len() == stats@.len(),
                forall|x: int|
                    #![trigger from[x]]
                    0 <= x < from.len() ==> 0 <= from[x] < i && survives(
                        model,
                        *pm,
                        was[from[x]].0@,
                    ) && reports(
                        stats@[x],
                        was[from[x]].0@,
                        was[from[x]].1@,
                        pm.pid_count(was[from[x]].0@),
                    ),
                forall|x: int, y: int| 0 <= x < y < from.len() ==> from[x] < from[y],
                forall|j: int|
                    0 <= j < i && survives(model, *pm, (#[trigger] was[j]).0@) ==> from.contains(j),
                gone.len() == evict@.len(),
                forall|x: int|
                    #![trigger gone[x]]
                    0 <= x < gone.len() ==> 0 <= gone[x] < i && was[gone[x]].0@ == evict@[x]@
                        && !survives(model, *pm, was[gone[x]].0@),
                forall|j: int|
                    0 <= j < i && !survives(model, *pm, (#[trigger] was[j]).0@) ==> gone.contains(
                        j,
                    ),
            decreases n - i,
        {
            let exe: String = self.apps.entries[i].0.clone();
            let pids: u32 = pm.pids_for(exe.as_str());
            proof {
                old(self).apps.lemma_entry(i as int);
            }
            let stat: AppStat = self.apps.entries[i].1.sample(exe.as_str(), pids);
            let ghost from0 = from;
            let ghost gone0 = gone;
            if self.apps.entries[i].1.idle > IDLE_EVICT {
                evict.push(exe);
                proof {
                    gone = gone0.push(i as int);
                    assert(gone[gone0.len() as int] == i);
                }
            } else {
                stats.push(stat);
                proof {
                    from = from0.push(i as int);
                    assert(from[from0.len() as int] == i);
                }
            }
            proof {
                assert forall|j: int|
                    0 <= j < i + 1 && survives(
                        model,
                        *pm,
                        (#[trigger] was[j]).0@,
                    ) implies from.contains(j) by {
                    if j < i {
                        let x = choose|x: int| 0 <= x < from0.len() && from0[x] == j;
                        assert(from[x] == j);
                    }
                }
                assert forall|j: int|
                    0 <= j < i + 1 && !survives(
                        model,
                        *pm,
                        (#[trigger] was[j]).0@,
                    ) implies gone.contains(j) by {
                    if j < i {
                        let x = choose|x: int| 0 <= x < gone0.len() && gone0[x] == j;
                        assert(gone[x] == j);
                    }
                }
            }
            i = i + 1;
        }
        proof {
            let now = self.apps.entries@;
            assert(self.apps.wf());
            assert forall|exe: Seq<char>| has_key(now, exe) == has_key(was, exe) by {
                if has_key(was, exe) {
                    assert(now[key_index(was, exe)].0@ == exe);
                }
                if has_key(now, exe) {
                    assert(was[key_index(now, exe)].0@ == exe);
                }
            }
            assert(self.apps@.dom() =~= model.dom());
            assert forall|exe: Seq<char>| #[trigger]
                self.apps@.dom().contains(exe) implies self.apps@[exe]@ == model[exe]@.sampled(
                pm.pid_count(exe),
            ) by {
                let j = key_index(now, exe);
                assert(0 <= j < now.len() && now[j].0@ == exe);
                self.apps.lemma_entry(j);
                old(self).apps.lemma_entry(j);
            }
            assert forall|x: int|
                #![trigger stats@[x]]
                0 <= x < stats@.len() implies survives(model, *pm, stats@[x].exe@) && reports(
                stats@[x],
                stats@[x].exe@,
                model[stats@[x].exe@]@,
                pm.pid_count(stats@[x].exe@),
            ) by {
                old(self).apps.lemma_entry(from[x]);
            }
            assert forall|x: int, y: int| 0 <= x < y < stats@.len() implies (
            #[trigger] stats@[x]).exe@ != (#[trigger] stats@[y]).exe@ by {
                assert(from[x] < from[y]);
                assert(was[from[x]].0@ != was[from[y]].0@);
            }
            assert forall|exe: Seq<char>| #[trigger] survives(model, *pm, exe) implies exists|
                x: int,
            |
                0 <= x < stats@.len() && (#[trigger] stats@[x]).exe@ == exe by {
                let j = key_index(was, exe);
                assert(0 <= j < was.len() && was[j].0@ == exe);
                let x = choose|x: int| 0 <= x < from.len() && from[x] == j;
                assert(stats@[x].exe@ == exe);
            }
            assert forall|exe: Seq<char>| #[trigger] lists(evict@, exe) <==> model.dom().contains(
                exe,
            ) && !survives(model, *pm, exe) by {
                if lists(evict@, exe) {
                    let x = choose|x: int| 0 <= x < evict@.len() && (#[trigger] evict@[x])@ == exe;
                    old(self).apps.lemma_entry(gone[x]);
                }
                if model.dom().contains(exe) && !survives(model, *pm, exe) {
                    let j = key_index(was, exe);
                    assert(0 <= j < was.len() && was[j].0@ == exe);
                    let x = choose|x: int| 0 <= x < gone.len() && gone[x] == j;
                    assert(evict@[x]@ == exe);
                }
            }
        }
        (stats, evict)
    }
}

/// Arrange reports by traffic, the busiest first.
fn busiest_first(
    stats: Vec<AppStat>,
    Ghost(apps): Ghost<Map<Seq<char>, AppAccum>>,
    Ghost(pm): Ghost<ProcMap>,
) -> (r: Vec<AppStat>)
    requires
        covers_apps(stats@, apps, pm),
    ensures
        covers_apps(r@, apps, pm),
        forall|i: int, j: int|
            0 <= i < j < r@.len() ==> r@[i].down_bps + r@[i].up_bps >= r@[j].down_bps
                + r@[j].up_bps,
{
    let mut keys: Vec<Busiest> = Vec::new();
    for i in 0..stats.len()
        invariant
            keys@.len() == i,
            forall|j: int|
                0 <= j < i ==> (#[trigger] keys@[j]).0 == stats@[j].down_bps + stats@[j].up_bps,
    {
        keys.push(Busiest(stats[i].down_bps as u128 + stats[i].up_bps as u128));
    }
    let ghost before = stats@;
    let out: Vec<AppStat> = sorted(stats, &keys);
    proof {
        let p = choose|p: Seq<int>| is_sorting(p, before, keys@, out@);
        assert forall|i: int, j: int| 0 <= i < j < out@.len() implies out@[i].down_bps
            + out@[i].up_bps >= out@[j].down_bps + out@[j].up_bps by {
            assert(keys@[p[i]].ranks(&keys@[p[j]]));
            assert(out@[i] == before[p[i]] && out@[j] == before[p[j]]);
        }
        assert forall|i: int, j: int| 0 <= i < j < out@.len() implies (#[trigger] out@[i]).exe@
            != (#[trigger] out@[j]).exe@ by {
            assert(p[i] != p[j]);
            assert(out@[i] == before[p[i]] && out@[j] == before[p[j]]);
            if p[i] < p[j] {
            } else {
            }
        }
        assert forall|exe: Seq<char>| #[trigger] survives(apps, pm, exe) implies exists|i: int|
            0 <= i < out@.len() && (#[trigger] out@[i]).exe@ == exe by {
            let k = choose|k: int| 0 <= k < before.len() && (#[trigger] before[k]).exe@ == exe;
            assert(p.contains(k));
            let i = choose|i: int| 0 <= i < p.len() && p[i] == k;
            assert(out@[i] == before[p[i]]);
        }
    }
    out
}

// ---- Laws --------------------------------------------------------------------

/// The traffic of the host since the previous sample is the sum of its two
/// zones, and the same holds of every application.
pub proof fn law_zones_add_up(acc: &Accum)
    requires
        acc.wf(),
    ensures
        acc.host.down - acc.host.last_down == (acc.lan.down - acc.lan.last_down) + (
        acc.internet.down - acc.internet.last_down),
        acc.host.up - acc.host.last_up == (acc.lan.up - acc.lan.last_up) + (acc.internet.up
            - acc.internet.last_up),
        forall|exe: Seq<char>| #[trigger]
            acc.apps@.dom().contains(exe) ==> {
                let a = acc.apps@[exe]@;
                &&& a.down_rate() == (a.lan.down - a.lan.last_down) + (a.internet.down
                    - a.internet.last_down)
                &&& a.up_rate() == (a.lan.up - a.lan.last_up) + (a.internet.up
                    - a.internet.last_up)
            },
{
}

/// The totals of an application never fall: a packet adds to them, and a sample
/// leaves them as they are.
pub proof fn law_totals_never_fall(a: AppModel, outgoing: bool, bytes: u64, is_lan: bool, pids: u32)
    requires
        a.total.room(outgoing, bytes),
    ensures
        a.counting(outgoing, bytes, is_lan).total.down >= a.total.down,
        a.counting(outgoing, bytes, is_lan).total.up >= a.total.up,
        a.sampled(pids).total.down == a.total.down,
        a.sampled(pids).total.up == a.total.up,
{
}

/// A history never holds more than [`SPARK_LEN`] samples, and its last one is the
/// newest.
pub proof fn law_history_is_bounded(spark: Seq<u32>, v: u32)
    requires
        spark.len() <= SPARK_LEN,
    ensures
        spark_after(spark, v).len() <= SPARK_LEN,
        spark_after(spark, v).last() == v,
{
}

/// The counters after `n` samples that find neither traffic nor a process.
pub open spec fn idle_samples(a: AppModel, n: nat) -> AppModel
    decreases n,
{
    if n == 0 {
        a
    } else {
        idle_samples(a, (n - 1) as nat).sampled(0)
    }
}

/// An application that stops sending and has no process is kept for exactly
/// [`IDLE_EVICT`] further samples and dropped by the next.
pub proof fn law_idle_apps_expire(a: AppModel, n: nat)
    requires
        a.wf(),
        a.quiet(0),
        a.idle == 0,
        n <= IDLE_EVICT,
    ensures
        idle_samples(a, n).expires(0) <==> n == IDLE_EVICT,
{
    lemma_idle(a, n);
}

proof fn lemma_idle(a: AppModel, n: nat)
    requires
        a.wf(),
        a.quiet(0),
        a.idle == 0,
        n <= IDLE_EVICT,
    ensures
        idle_samples(a, n).quiet(0),
        idle_samples(a, n).idle == n,
        idle_samples(a, n).total.wf(),
    decreases n,
{
    if n > 0 {
        lemma_idle(a, (n - 1) as nat);
    }
}

/// The bytes of a packet are reported by the next sample and by no later one.
pub proof fn law_counted_once(c: Counter, outgoing: bool, bytes: u64)
    requires
        c.wf(),
        c.room(outgoing, bytes),
    ensures
        ({
            let after = c.advanced().counting(outgoing, bytes);
            &&& (after.down - after.last_down) + (after.up - after.last_up) == bytes
            &&& after.advanced().down - after.advanced().last_down == 0
            &&& after.advanced().up - after.advanced().last_up == 0
        }),
{
}

/// A packet counts with all its bytes: for the host, for its zone and for its
/// application, in its direction, and for nothing else.
pub proof fn law_packet_counts_in_full(
    a: Accum,
    exe: Seq<char>,
    outgoing: bool,
    bytes: u64,
    is_lan: bool,
    b: Accum,
)
    requires
        a.wf(),
        a.host.room(outgoing, bytes),
        counted(a, exe, outgoing, bytes, is_lan, b),
    ensures
        ({
            let down: int = if outgoing {
                0
            } else {
                bytes as int
            };
            let up: int = if outgoing {
                bytes as int
            } else {
                0
            };
            let (x, y) = (a.app(exe), b.app(exe));
            &&& b.host.down == a.host.down + down
            &&& b.host.up == a.host.up + up
            &&& is_lan ==> b.lan.down == a.lan.down + down && b.lan.up == a.lan.up + up
            &&& is_lan ==> b.internet.down == a.internet.down && b.internet.up == a.internet.up
            &&& !is_lan ==> b.internet.down == a.internet.down + down && b.internet.up
                == a.internet.up + up
            &&& !is_lan ==> b.lan.down == a.lan.down && b.lan.up == a.lan.up
            &&& b.apps@.dom().contains(exe)
            &&& y.total.down == x.total.down + down
            &&& y.total.up == x.total.up + up
            &&& is_lan ==> y.lan.down == x.lan.down + down && y.lan.up == x.lan.up + up
            &&& is_lan ==> y.internet.down == x.internet.down && y.internet.up == x.internet.up
            &&& !is_lan ==> y.internet.down == x.internet.down + down && y.internet.up
                == x.internet.up + up
            &&& !is_lan ==> y.lan.down == x.lan.down && y.lan.up == x.lan.up
            &&& y.idle == x.idle
            &&& y.down_spark == x.down_spark
            &&& y.up_spark == x.up_spark
        }),
        b.host.last_down == a.host.last_down,
        b.host.last_up == a.host.last_up,
        b.lan.last_down == a.lan.last_down,
        b.lan.last_up == a.lan.last_up,
        b.internet.last_down == a.internet.last_down,
        b.internet.last_up == a.internet.last_up,
        b.app(exe).total.last_down == a.app(exe).total.last_down,
        b.app(exe).total.last_up == a.app(exe).total.last_up,
        forall|other: Seq<char>| other != exe ==> #[trigger] b.app(other) == a.app(other),
        !a.apps@.dom().contains(exe) ==> a.app(exe).total.down == 0 && a.app(exe).total.up == 0,
{
    if a.apps@.dom().contains(exe) {
        assert(a.apps@[exe]@.total.down <= a.host.down);
    }
}

/// A report gives the bytes since the previous sample as rates, for the application and
/// for each zone, and its totals as they are.
pub proof fn law_report_tells_the_counters(s: AppStat, exe: Seq<char>, a: AppModel, pids: u32)
    requires
        a.wf(),
        reports(s, exe, a, pids),
    ensures
        s.exe@ == exe,
        exe.len() == 0 ==> s.name@ == "(unresolved)"@,
        exe.len() > 0 ==> s.name@ == base_of(exe),
        s.pids == pids,
        s.down_bps == a.total.down - a.total.last_down,
        s.up_bps == a.total.up - a.total.last_up,
        s.down_total == a.total.down,
        s.up_total == a.total.up,
        s.lan_down_bps == a.lan.down - a.lan.last_down,
        s.lan_up_bps == a.lan.up - a.lan.last_up,
        s.inet_down_bps == a.internet.down - a.internet.last_down,
        s.inet_up_bps == a.internet.up - a.internet.last_up,
        s.down_bps == s.lan_down_bps + s.inet_down_bps,
        s.up_bps == s.lan_up_bps + s.inet_up_bps,
        s.down_spark@.len() > 0,
        s.down_spark@.last() == s.down_bps as u64 % 0x1_0000_0000,
        s.up_spark@.len() > 0,
        s.up_spark@.last() == s.up_bps as u64 % 0x1_0000_0000,
{
}

/// A history keeps its order and forgets only its oldest value, and that only when it
/// holds sixty.
pub proof fn law_history_keeps_the_newest(spark: Seq<u32>, v: u32, i: int)
    requires
        spark.len() <= 60,
    ensures
        spark.len() < 60 ==> spark_after(spark, v).len() == spark.len() + 1,
        spark.len() == 60 ==> spark_after(spark, v).len() == 60,
        spark_after(spark, v).last() == v,
        spark.len() < 60 && 0 <= i < spark.len() ==> spark_after(spark, v)[i] == spark[i],
        spark.len() == 60 && 1 <= i < spark.len() ==> spark_after(spark, v)[i - 1] == spark[i],
{
}

/// A sample settles the counters: what was reported is not reported again, and the
/// totals stay.
pub proof fn law_sample_settles(a: AppModel, pids: u32)
    ensures
        ({
            let b = a.sampled(pids);
            &&& b.down_rate() == 0 && b.up_rate() == 0
            &&& b.lan.last_down == b.lan.down && b.lan.last_up == b.lan.up
            &&& b.internet.last_down == b.internet.down && b.internet.last_up == b.internet.up
            &&& b.total.down == a.total.down && b.total.up == a.total.up
            &&& b.lan.down == a.lan.down && b.lan.up == a.lan.up
            &&& b.internet.down == a.internet.down && b.internet.up == a.internet.up
            &&& pids > 0 ==> b.idle == 0
        }),
{
}

/// Every application that is not dropped is reported by a sample, and only one that was
/// idle for sixty samples before, has no traffic and no process is dropped.
pub proof fn law_every_application_is_reported(
    a: Accum,
    pm: ProcMap,
    now_ms: u64,
    b: Accum,
    r: MonitorSnapshot,
    exe: Seq<char>,
)
    requires
        a.wf(),
        sampled(a, pm, now_ms, b, r),
        a.apps@.dom().contains(exe),
    ensures
        ({
            let x = a.apps@[exe]@;
            let dropped = x.idle == 60 && x.total.down == x.total.last_down && x.total.up
                == x.total.last_up && pm.pid_count(exe) == 0;
            &&& b.apps@.dom().contains(exe) <==> !dropped
            &&& !dropped ==> exists|i: int|
                0 <= i < r.apps@.len() && (#[trigger] r.apps@[i]).exe@ == exe
                    && r.apps@[i].down_total == x.total.down && r.apps@[i].up_total == x.total.up
                    && r.apps@[i].pids == pm.pid_count(exe)
            &&& dropped ==> forall|i: int|
                0 <= i < r.apps@.len() ==> (#[trigger] r.apps@[i]).exe@ != exe
        }),
        r.timestamp_ms == now_ms,
        r.host.down_total == a.host.down,
        r.host.up_total == a.host.up,
        r.host.down_bps == a.host.down - a.host.last_down,
        r.host.up_bps == a.host.up - a.host.last_up,
        r.host.lan_down_bps == a.lan.down - a.lan.last_down,
        r.host.lan_up_bps == a.lan.up - a.lan.last_up,
        r.host.inet_down_bps == a.internet.down - a.internet.last_down,
        r.host.inet_up_bps == a.internet.up - a.internet.last_up,
        b.host.last_down == a.host.down,
        b.host.last_up == a.host.up,
        b.host.down == a.host.down,
        b.host.up == a.host.up,
{
    let x = a.apps@[exe]@;
    assert(x.wf());
    if survives(a.apps@, pm, exe) {
        let i = choose|i: int| 0 <= i < r.apps@.len() && (#[trigger] r.apps@[i]).exe@ == exe;
        assert(reports(r.apps@[i], exe, x, pm.pid_count(exe)));
    } else {
        assert forall|i: int| 0 <= i < r.apps@.len() implies (#[trigger] r.apps@[i]).exe@ != exe by {
            assert(survives(a.apps@, pm, r.apps@[i].exe@));
        }
    }
}

/// Bytes can be counted as long as the counter of their direction stays within 64 bits.
pub proof fn law_room_to_count(c: Counter, bytes: u64)
    ensures
        c.room(true, bytes) <==> c.up + bytes <= u64::MAX,
        c.room(false, bytes) <==> c.down + bytes <= u64::MAX,
{
}

/// The counters of an application are what its entry holds.
pub proof fn law_counters_are_what_is_kept(a: AppAccum)
    ensures
        a@.total == a.total,
        a@.lan == a.lan,
        a@.internet == a.internet,
        a@.down_spark == a.down_spark@,
        a@.up_spark == a.up_spark@,
        a@.idle == a.idle,
{
}

/// An application that was not seen yet has no traffic and no history.
pub proof fn law_new_applications_have_no_traffic(exe: Seq<char>, acc: Accum)
    requires
        !acc.apps@.dom().contains(exe),
    ensures
        acc.app(exe).total == (Counter { down: 0, up: 0, last_down: 0, last_up: 0 }),
        acc.app(exe).lan == (Counter { down: 0, up: 0, last_down: 0, last_up: 0 }),
        acc.app(exe).internet == (Counter { down: 0, up: 0, last_down: 0, last_up: 0 }),
        acc.app(exe).down_spark.len() == 0,
        acc.app(exe).up_spark.len() == 0,
        acc.app(exe).idle == 0,
{
}

} // verus!
