//! Data quotas of applications.
//!
//! The usage of each application with a quota is accounted from the totals of the
//! traffic monitor. Once usage exceeds the budget the application is to be
//! blocked; at the end of the period usage starts from zero again and the block
//! is lifted.

use vstd::prelude::*;

use crate::order::{is_sorting, name_le, sorted, Name, Ranked};
use crate::proto::{AppStat, Direction, MonitorSnapshot, QuotaPeriod, QuotaStatus};
use crate::table::{has_key, key_index, keys_differ, Table};
use crate::text::{base_of, basename, chars, join_path, joined, same};

verus! {

/// Directory of the state files where none is configured.
pub const DEFAULT_STATE_DIR: &'static str = "/var/lib/curb";

/// Length of the longest period, in milliseconds.
pub const LONGEST_PERIOD_MS: u64 = 2_592_000_000;

/// The path of a state file, from the value of `$CURB_STATE_DIR`.
pub fn state_path(dir: Option<&str>, file: &str) -> (r: String)
    ensures
        r@ == joined(
            match dir {
                Some(d) => d@,
                None => DEFAULT_STATE_DIR@,
            },
            file@,
        ),
{
    match dir {
        Some(d) => join_path(d, file),
        None => join_path(DEFAULT_STATE_DIR, file),
    }
}

/// Length of a period in milliseconds; a lifetime quota has none.
pub open spec fn period_ms(p: QuotaPeriod) -> Option<u64> {
    match p {
        QuotaPeriod::Hourly => Some(3_600_000),
        QuotaPeriod::Daily => Some(86_400_000),
        QuotaPeriod::Weekly => Some(604_800_000),
        // Thirty days.
        QuotaPeriod::Monthly => Some(2_592_000_000),
        QuotaPeriod::Total => None,
    }
}

/// Length of a period in milliseconds.
pub fn period_len(p: QuotaPeriod) -> (r: Option<u64>)
    ensures
        r == period_ms(p),
{
    match p {
        QuotaPeriod::Hourly => Some(3_600_000),
        QuotaPeriod::Daily => Some(86_400_000),
        QuotaPeriod::Weekly => Some(604_800_000),
        QuotaPeriod::Monthly => Some(2_592_000_000),
        QuotaPeriod::Total => None,
    }
}

/// The configuration of one quota and its accounting cursor.
#[derive(Debug)]
pub struct QuotaEntry {
    pub name: String,
    pub budget_bytes: u64,
    pub period: QuotaPeriod,
    pub direction: Direction,
    pub used_bytes: u64,
    /// Epoch milliseconds at which the current period started.
    pub period_start_ms: u64,
    pub exceeded: bool,
    /// Totals of the monitor at the last accounting.
    pub last_down_total: u64,
    pub last_up_total: u64,
}

/// What an accounting knows of an application: its totals down and up, if the
/// monitor lists it.
pub type Totals = Option<(u64, u64)>;

/// The totals of the last report on an executable.
pub open spec fn totals_of(apps: Seq<AppStat>, exe: Seq<char>) -> Totals
    decreases apps.len(),
{
    if apps.len() == 0 || exe.len() == 0 {
        None
    } else if apps.last().exe@ == exe {
        Some((apps.last().down_total, apps.last().up_total))
    } else {
        totals_of(apps.drop_last(), exe)
    }
}

/// The totals of the first report on an executable, zero where there is none.
pub open spec fn first_totals(apps: Seq<AppStat>, exe: Seq<char>) -> (u64, u64)
    decreases apps.len(),
{
    if apps.len() == 0 {
        (0, 0)
    } else if apps[0].exe@ == exe {
        (apps[0].down_total, apps[0].up_total)
    } else {
        first_totals(apps.skip(1), exe)
    }
}

/// `a - b`, but not below zero.
pub open spec fn growth(a: u64, b: u64) -> int {
    if a >= b {
        a - b
    } else {
        0
    }
}

impl QuotaEntry {
    /// The end of the current period can be told in milliseconds.
    pub open spec fn wf(self) -> bool {
        period_ms(self.period) is Some ==> self.period_start_ms + period_ms(self.period)->0
            <= u64::MAX
    }

    /// The entry with its cursors at zero.
    pub open spec fn rewound(self) -> QuotaEntry {
        QuotaEntry { last_down_total: 0, last_up_total: 0, ..self }
    }

    /// Whether the current period is over.
    pub open spec fn is_due(self, now: u64) -> bool {
        period_ms(self.period) is Some && now >= self.period_start_ms + period_ms(self.period)->0
    }

    /// The entry at the start of a new period: nothing is used, nothing exceeded,
    /// and counting goes on from the present totals.
    pub open spec fn restarted(self, t: Totals, now: u64) -> QuotaEntry {
        QuotaEntry {
            period_start_ms: now,
            used_bytes: 0,
            exceeded: false,
            last_down_total: match t {
                Some(p) => p.0,
                None => self.last_down_total,
            },
            last_up_total: match t {
                Some(p) => p.1,
                None => self.last_up_total,
            },
            ..self
        }
    }

    /// The entry after the resets that are due.
    pub open spec fn renewed(self, t: Totals, now: u64) -> QuotaEntry {
        if self.is_due(now) {
            self.restarted(t, now)
        } else {
            self
        }
    }

    /// Bytes to charge: what the totals grew by in the counted direction. Totals
    /// that went back charge nothing.
    pub open spec fn delta(self, t: Totals) -> int {
        match t {
            Some(p) => match self.direction {
                Direction::Down => growth(p.0, self.last_down_total),
                Direction::Up => growth(p.1, self.last_up_total),
                Direction::Both => growth(p.0, self.last_down_total) + growth(
                    p.1,
                    self.last_up_total,
                ),
            },
            None => 0,
        }
    }

    /// The entry after charging what the totals grew by.
    pub open spec fn charged(self, t: Totals) -> QuotaEntry {
        match t {
            Some(p) => QuotaEntry {
                used_bytes: (self.used_bytes + self.delta(t)) as u64,
                last_down_total: p.0,
                last_up_total: p.1,
                ..self
            },
            None => self,
        }
    }

    /// The entry after its usage is held against its budget.
    pub open spec fn judged(self) -> QuotaEntry {
        QuotaEntry {
            exceeded: self.exceeded || self.used_bytes > self.budget_bytes,
            ..self
        }
    }

    /// Whether the entry is that of a quota set now: nothing is used, and counting
    /// goes on from the present totals.
    pub open spec fn begins(
        self,
        exe: Seq<char>,
        budget_bytes: u64,
        period: QuotaPeriod,
        direction: Direction,
        apps: Seq<AppStat>,
        now: u64,
    ) -> bool {
        &&& self.name@ == base_of(exe)
        &&& self.budget_bytes == budget_bytes
        &&& self.period == period
        &&& self.direction == direction
        &&& self.used_bytes == 0
        &&& self.period_start_ms == now
        &&& !self.exceeded
        &&& (self.last_down_total, self.last_up_total) == first_totals(apps, exe)
    }

    /// The entry after one accounting.
    pub open spec fn ticked(self, t: Totals, now: u64) -> QuotaEntry {
        self.renewed(t, now).charged(t).judged()
    }

    /// Whether the usage after one accounting can be told.
    pub open spec fn fits(self, t: Totals, now: u64) -> bool {
        self.renewed(t, now).used_bytes + self.renewed(t, now).delta(t) <= u64::MAX
    }

    /// What one accounting orders: to lift the block of a quota that is renewed,
    /// and to block once the budget is exceeded.
    pub open spec fn orders(self, t: Totals, now: u64) -> Seq<bool> {
        (if self.is_due(now) && self.exceeded {
            seq![false]
        } else {
            Seq::empty()
        }) + (if self.ticked(t, now).exceeded && !self.renewed(t, now).exceeded {
            seq![true]
        } else {
            Seq::empty()
        })
    }

    /// Seconds until the current period ends.
    pub open spec fn resets_in(self, now: u64) -> Option<u64> {
        match period_ms(self.period) {
            Some(len) => Some(
                (growth((self.period_start_ms + len) as u64, now) / 1000) as u64,
            ),
            None => None,
        }
    }

    /// Whether a status shows this entry.
    pub open spec fn shown_by(self, s: QuotaStatus, exe: Seq<char>, now: u64) -> bool {
        &&& s.exe@ == exe
        &&& s.name@ == self.name@
        &&& s.budget_bytes == self.budget_bytes
        &&& s.used_bytes == self.used_bytes
        &&& s.period == self.period
        &&& s.direction == self.direction
        &&& s.exceeded == self.exceeded
        &&& s.resets_in_secs == self.resets_in(now)
    }

    /// Account for the present totals. Returns whether a block is to be lifted
    /// and whether one is to be set, in this order.
    fn tick(&mut self, t: Totals, now: u64) -> (r: (bool, bool))
        requires
            old(self).wf(),
            old(self).fits(t, now),
            now + LONGEST_PERIOD_MS <= u64::MAX,
        ensures
            final(self).wf(),
            *final(self) == old(self).ticked(t, now),
            old(self).orders(t, now) == (if r.0 {
                seq![false]
            } else {
                Seq::empty()
            }) + (if r.1 {
                seq![true]
            } else {
                Seq::empty()
            }),
    {
        let mut lift: bool = false;
        match period_len(self.period) {
            Some(len) => {
                if now >= self.period_start_ms + len {
                    self.period_start_ms = now;
                    self.used_bytes = 0;
                    if self.exceeded {
                        self.exceeded = false;
                        lift = true;
                    }
                    match t {
                        Some((d, u)) => {
                            self.last_down_total = d;
                            self.last_up_total = u;
                        },
                        None => {},
                    }
                }
            },
            None => {},
        }
        assert(*self == old(self).renewed(t, now));
        match t {
            Some((d, u)) => {
                let dd: u64 = if d >= self.last_down_total {
                    d - self.last_down_total
                } else {
                    0
                };
                let du: u64 = if u >= self.last_up_total {
                    u - self.last_up_total
                } else {
                    0
                };
                self.last_down_total = d;
                self.last_up_total = u;
                let more: u64 = match self.direction {
                    Direction::Down => dd,
                    Direction::Up => du,
                    Direction::Both => dd + du,
                };
                self.used_bytes = self.used_bytes + more;
            },
            None => {},
        }
        assert(*self == old(self).renewed(t, now).charged(t));
        let mut block: bool = false;
        if self.used_bytes > self.budget_bytes && !self.exceeded {
            self.exceeded = true;
            block = true;
        }
        (lift, block)
    }

    /// Whether the usage after one accounting can be told.
    fn can_tick(&self, t: Totals, now: u64) -> (r: bool)
        requires
            self.wf(),
        ensures
            r == self.fits(t, now),
    {
        let due: bool = match period_len(self.period) {
            Some(len) => now >= self.period_start_ms + len,
            None => false,
        };
        match t {
            Some((d, u)) => {
                if due {
                    true
                } else {
                    let dd: u64 = if d >= self.last_down_total {
                        d - self.last_down_total
                    } else {
                        0
                    };
                    let du: u64 = if u >= self.last_up_total {
                        u - self.last_up_total
                    } else {
                        0
                    };
                    let more: u128 = match self.direction {
                        Direction::Down => dd as u128,
                        Direction::Up => du as u128,
                        Direction::Both => dd as u128 + du as u128,
                    };
                    self.used_bytes as u128 + more <= u64::MAX as u128
                }
            },
            None => true,
        }
    }
}

fn latest_totals(apps: &Vec<AppStat>, exe: &str) -> (r: Totals)
    ensures
        r == totals_of(apps@, exe@),
{
    if exe.is_empty() {
        return None;
    }
    let mut i: usize = apps.len();
    assert(apps@.take(i as int) =~= apps@);
    while i > 0
        invariant
            i <= apps@.len(),
            exe@.len() > 0,
            totals_of(apps@, exe@) == totals_of(apps@.take(i as int), exe@),
        decreases i,
    {
        i = i - 1;
        assert(apps@.take(i + 1).drop_last() =~= apps@.take(i as int));
        if same(apps[i].exe.as_str(), exe) {
            return Some((apps[i].down_total, apps[i].up_total));
        }
    }
    None
}

/// Look up the present totals of an application.
pub fn totals_for(apps: &Vec<AppStat>, exe: &str) -> (r: (u64, u64))
    ensures
        r == first_totals(apps@, exe@),
{
    assert(apps@.skip(0) =~= apps@);
    for i in 0..apps.len()
        invariant
            first_totals(apps@, exe@) == first_totals(apps@.skip(i as int), exe@),
    {
        if same(apps[i].exe.as_str(), exe) {
            return (apps[i].down_total, apps[i].up_total);
        }
        assert(apps@.skip(i as int).skip(1) =~= apps@.skip(i + 1));
    }
    (0, 0)
}

/// The quotas by executable path.
pub struct QuotaManager {
    pub quotas: Table<QuotaEntry>,
}

/// What one accounting orders for the first `n` entries: the executable, and
/// whether to block it.
pub open spec fn orders_of(
    entries: Seq<(String, QuotaEntry)>,
    apps: Seq<AppStat>,
    now: u64,
    n: int,
) -> Seq<(Seq<char>, bool)>
    decreases n,
{
    if n <= 0 {
        Seq::empty()
    } else {
        let (exe, q) = entries[n - 1];
        orders_of(entries, apps, now, n - 1) + q.orders(totals_of(apps, exe@), now).map_values(
            |b: bool| (exe@, b),
        )
    }
}

/// Orders with their texts as values.
pub open spec fn order_texts(v: Seq<(String, bool)>) -> Seq<(Seq<char>, bool)> {
    v.map_values(|p: (String, bool)| (p.0@, p.1))
}

/// The entries after one accounting.
pub open spec fn ticked_entries(
    a: Seq<(String, QuotaEntry)>,
    apps: Seq<AppStat>,
    now: u64,
    b: Seq<(String, QuotaEntry)>,
) -> bool {
    &&& a.len() == b.len()
    &&& forall|i: int|
        #![trigger b[i]]
        0 <= i < a.len() ==> b[i].0@ == a[i].0@ && b[i].1 == a[i].1.ticked(
            totals_of(apps, a[i].0@),
            now,
        )
}

/// What one accounting leads to from `a`.
pub open spec fn ticked_to(
    a: QuotaManager,
    apps: Seq<AppStat>,
    now: u64,
    b: QuotaManager,
) -> bool {
    &&& ticked_entries(a.quotas.entries@, apps, now, b.quotas.entries@)
    &&& b.quotas@.dom() == a.quotas@.dom()
    &&& forall|exe: Seq<char>| #[trigger]
        a.quotas@.dom().contains(exe) ==> b.quotas@[exe] == a.quotas@[exe].ticked(
            totals_of(apps, exe),
            now,
        )
}

/// Whether statuses list each quota once, by name.
pub open spec fn lists_quotas(
    out: Seq<QuotaStatus>,
    quotas: Map<Seq<char>, QuotaEntry>,
    now: u64,
) -> bool {
    &&& forall|i: int|
        #![trigger out[i]]
        0 <= i < out.len() ==> quotas.dom().contains(out[i].exe@)
            && quotas[out[i].exe@].shown_by(out[i], out[i].exe@, now)
    &&& forall|i: int, j: int|
        0 <= i < j < out.len() ==> (#[trigger] out[i]).exe@ != (#[trigger] out[j]).exe@
    &&& forall|exe: Seq<char>| #[trigger]
        quotas.dom().contains(exe) ==> exists|i: int|
            0 <= i < out.len() && (#[trigger] out[i]).exe@ == exe
    &&& forall|i: int, j: int| 0 <= i < j < out.len() ==> name_le(out[i].name@, out[j].name@)
}

/// The quotas that taking over stored ones gives: each with its cursors at zero; of
/// several for one executable the last counts.
pub open spec fn resumed(stored: Seq<(String, QuotaEntry)>) -> Map<Seq<char>, QuotaEntry>
    decreases stored.len(),
{
    if stored.len() == 0 {
        Map::empty()
    } else {
        resumed(stored.drop_last()).insert(stored.last().0@, stored.last().1.rewound())
    }
}

/// The executables whose quota is exceeded, in order.
pub open spec fn exceeded_names(entries: Seq<(String, QuotaEntry)>) -> Seq<Seq<char>>
    decreases entries.len(),
{
    if entries.len() == 0 {
        Seq::empty()
    } else {
        let rest = exceeded_names(entries.drop_last());
        if entries.last().1.exceeded {
            rest.push(entries.last().0@)
        } else {
            rest
        }
    }
}

/// Whether entries are the stored ones, in order, with their cursors at zero.
spec fn same_quotas(a: Seq<(String, QuotaEntry)>, stored: Seq<(String, QuotaEntry)>) -> bool {
    &&& a.len() == stored.len()
    &&& forall|i: int|
        #![trigger a[i]]
        0 <= i < a.len() ==> a[i].0@ == stored[i].0@ && a[i].1 == stored[i].1.rewound()
}

proof fn lemma_same_names(a: Seq<(String, QuotaEntry)>, stored: Seq<(String, QuotaEntry)>)
    requires
        same_quotas(a, stored),
    ensures
        exceeded_names(a) == exceeded_names(stored),
    decreases a.len(),
{
    if a.len() > 0 {
        let (x, y) = (a.drop_last(), stored.drop_last());
        assert forall|i: int|
            #![trigger x[i]]
            0 <= i < x.len() implies x[i].0@ == y[i].0@ && x[i].1 == y[i].1.rewound() by {
            assert(x[i] == a[i] && y[i] == stored[i]);
        }
        lemma_same_names(x, y);
        assert(a.last() == a[a.len() - 1]);
    }
}

fn order(v: &mut Vec<(String, bool)>, exe: &String, block: bool)
    ensures
        order_texts(final(v)@) == order_texts(old(v)@).push((exe@, block)),
{
    v.push((exe.clone(), block));
    assert(order_texts(v@) =~= order_texts(old(v)@).push((exe@, block)));
}

impl QuotaManager {
    pub open spec fn wf(&self) -> bool {
        &&& self.quotas.wf()
        &&& forall|i: int|
            0 <= i < self.quotas.entries@.len() ==> (#[trigger] self.quotas.entries@[i]).1.wf()
    }

    /// Whether the usage of every quota after one accounting can be told.
    pub open spec fn fits(&self, apps: Seq<AppStat>, now: u64) -> bool {
        forall|i: int|
            #![trigger self.quotas.entries@[i]]
            0 <= i < self.quotas.entries@.len() ==> self.quotas.entries@[i].1.fits(
                totals_of(apps, self.quotas.entries@[i].0@),
                now,
            )
    }

    /// What one accounting orders for all quotas.
    pub open spec fn all_orders(&self, apps: Seq<AppStat>, now: u64) -> Seq<(Seq<char>, bool)> {
        orders_of(self.quotas.entries@, apps, now, self.quotas.entries@.len() as int)
    }

    /// Whether a quota of the executable is exceeded.
    pub open spec fn is_exceeded(&self, exe: Seq<char>) -> bool {
        self.quotas@.dom().contains(exe) && self.quotas@[exe].exceeded
    }

    /// What replacing a quota orders: to lift the block of one that is exceeded.
    pub open spec fn lift_orders(&self, exe: Seq<char>) -> Seq<(Seq<char>, bool)> {
        if self.is_exceeded(exe) {
            seq![(exe, false)]
        } else {
            Seq::empty()
        }
    }

    /// No quotas.
    pub fn new() -> (r: QuotaManager)
        ensures
            r.wf(),
            r.quotas@ == Map::<Seq<char>, QuotaEntry>::empty(),
            r.quotas.entries@.len() == 0,
    {
        QuotaManager { quotas: Table::new() }
    }

    /// Take over a stored quota. The totals of the monitor begin at zero after a
    /// restart, so the cursors do too. Returns whether the application is to be
    /// blocked again.
    pub fn resume(&mut self, exe: String, stored: QuotaEntry) -> (r: bool)
        requires
            old(self).wf(),
            stored.wf(),
        ensures
            final(self).wf(),
            final(self).quotas@ == old(self).quotas@.insert(exe@, stored.rewound()),
            !old(self).quotas@.dom().contains(exe@) ==> final(self).quotas.entries@
                == old(self).quotas.entries@.push((exe, stored.rewound())),
            r == stored.exceeded,
    {
        let mut q: QuotaEntry = stored;
        q.last_down_total = 0;
        q.last_up_total = 0;
        let blocked: bool = q.exceeded;
        self.quotas.insert(exe, q);
        blocked
    }

    /// Take over all stored quotas after a restart. Also lists the applications that
    /// are to be blocked again: those whose quota is exceeded, in order.
    pub fn resume_all(stored: Vec<(String, QuotaEntry)>) -> (r: (QuotaManager, Vec<String>))
        requires
            forall|i: int| 0 <= i < stored@.len() ==> (#[trigger] stored@[i]).1.wf(),
        ensures
            r.0.wf(),
            r.0.quotas@ == resumed(stored@),
            r.1.deep_view() == exceeded_names(r.0.quotas.entries@),
            keys_differ(stored@) ==> r.1.deep_view() == exceeded_names(stored@),
    {
        let ghost all = stored@;
        let mut rest: Vec<(String, QuotaEntry)> = stored;
        let mut pending: Vec<(String, QuotaEntry)> = Vec::new();
        while rest.len() > 0
            invariant
                rest@.len() + pending@.len() == all.len(),
                rest@ == all.take(rest@.len() as int),
                forall|i: int|
                    0 <= i < pending@.len() ==> #[trigger] pending@[i] == all[all.len() - 1 - i],
            decreases rest@.len(),
        {
            match rest.pop() {
                Some(x) => {
                    pending.push(x);
                },
                None => {},
            }
            assert(rest@ =~= all.take(rest@.len() as int));
        }
        let mut m: QuotaManager = QuotaManager::new();
        let ghost mut n: int = 0;
        assert(all.take(0) =~= Seq::<(String, QuotaEntry)>::empty());
        while pending.len() > 0
            invariant
                n + pending@.len() == all.len(),
                0 <= n,
                forall|i: int| 0 <= i < all.len() ==> (#[trigger] all[i]).1.wf(),
                forall|i: int|
                    0 <= i < pending@.len() ==> #[trigger] pending@[i] == all[all.len() - 1 - i],
                m.wf(),
                m.quotas@ == resumed(all.take(n)),
                keys_differ(all) ==> same_quotas(m.quotas.entries@, all.take(n)),
            decreases pending@.len(),
        {
            let ghost was = m.quotas.entries@;
            match pending.pop() {
                Some((exe, q)) => {
                    let ghost k = exe@;
                    assert((exe, q) == all[n]);
                    proof {
                        assert(all.take(n + 1).drop_last() =~= all.take(n));
                        assert(all.take(n + 1).last() == all[n]);
                        if keys_differ(all) && m.quotas@.dom().contains(k) {
                            let i = key_index(was, k);
                            assert(0 <= i < was.len() && was[i].0@ == k);
                            assert(all.take(n)[i].0@ == k);
                            assert(all[i].0@ != all[n].0@);
                        }
                    }
                    let _ = m.resume(exe, q);
                },
                None => {},
            }
            proof {
                n = n + 1;
            }
        }
        assert(all.take(all.len() as int) =~= all);
        let names: Vec<String> = m.exceeded();
        proof {
            if keys_differ(all) {
                lemma_same_names(m.quotas.entries@, all);
            }
        }
        (m, names)
    }

    /// The applications whose quota is exceeded, in the order of the entries.
    fn exceeded(&self) -> (r: Vec<String>)
        ensures
            r.deep_view() == exceeded_names(self.quotas.entries@),
    {
        let ghost e = self.quotas.entries@;
        let mut r: Vec<String> = Vec::new();
        assert(e.take(0) =~= Seq::<(String, QuotaEntry)>::empty());
        assert(r.deep_view() =~= Seq::<Seq<char>>::empty());
        for i in 0..self.quotas.entries.len()
            invariant
                e == self.quotas.entries@,
                r.deep_view() == exceeded_names(e.take(i as int)),
        {
            assert(e.take(i + 1).drop_last() =~= e.take(i as int));
            assert(e.take(i + 1).last() == e[i as int]);
            let ghost before = r.deep_view();
            if self.quotas.entries[i].1.exceeded {
                r.push(self.quotas.entries[i].0.clone());
                assert(r.deep_view() =~= before.push(e[i as int].0@));
            }
        }
        assert(e.take(e.len() as int) =~= e);
        r
    }

    /// Create or replace a quota, begin counting from now, and account at once.
    /// Returns what is ordered: to lift the block of a replaced quota that was
    /// exceeded, and then what the accounting orders. There is no result, and no
    /// accounting, where the usage of some quota would be more than can be told.
    pub fn set_quota(
        &mut self,
        exe: &str,
        budget_bytes: u64,
        period: QuotaPeriod,
        direction: Direction,
        snap: &MonitorSnapshot,
        now: u64,
    ) -> (r: Option<Vec<(String, bool)>>)
        requires
            old(self).wf(),
            now + LONGEST_PERIOD_MS <= u64::MAX,
        ensures
            final(self).wf(),
            exists|q: QuotaEntry, mid: QuotaManager|
                {
                    &&& q.begins(exe@, budget_bytes, period, direction, snap.apps@, now)
                    &&& #[trigger] mid.enters(*old(self), exe@, q)
                    &&& r is Some <==> mid.fits(snap.apps@, now)
                    &&& r is Some ==> ticked_to(mid, snap.apps@, now, *final(self))
                    &&& r is Some ==> order_texts(r->0@) == old(self).lift_orders(exe@)
                        + mid.all_orders(snap.apps@, now)
                    &&& r is None ==> *final(self) == mid
                },
    {
        let lift: bool = match self.quotas.get(exe) {
            Some(q) => q.exceeded,
            None => false,
        };
        self.enter(exe, budget_bytes, period, direction, snap, now);
        if self.can_tick(snap, now) {
            let mut actions: Vec<(String, bool)> = Vec::new();
            assert(order_texts(actions@) =~= Seq::empty());
            if lift {
                order(&mut actions, &exe.to_string(), false);
                assert(order_texts(actions@) =~= old(self).lift_orders(exe@));
            }
            let ghost head = actions@;
            let mut more: Vec<(String, bool)> = self.tick(snap, now);
            let ghost rest = more@;
            actions.append(&mut more);
            assert(order_texts(actions@) =~= order_texts(head) + order_texts(rest));
            Some(actions)
        } else {
            None
        }
    }

    /// Whether this is what entering a quota leads to from `before`: the quota
    /// stands at its place, the others are as they were.
    pub open spec fn enters(&self, before: QuotaManager, exe: Seq<char>, q: QuotaEntry) -> bool {
        &&& self.wf()
        &&& self.quotas@ == before.quotas@.insert(exe, q)
    }

    fn enter(
        &mut self,
        exe: &str,
        budget_bytes: u64,
        period: QuotaPeriod,
        direction: Direction,
        snap: &MonitorSnapshot,
        now: u64,
    )
        requires
            old(self).wf(),
            now + LONGEST_PERIOD_MS <= u64::MAX,
        ensures
            exists|q: QuotaEntry|
                q.begins(exe@, budget_bytes, period, direction, snap.apps@, now)
                    && #[trigger] final(self).enters(*old(self), exe@, q),
    {
        let (down, up) = totals_for(&snap.apps, exe);
        let q: QuotaEntry = QuotaEntry {
            name: basename(exe),
            budget_bytes,
            period,
            direction,
            used_bytes: 0,
            period_start_ms: now,
            exceeded: false,
            last_down_total: down,
            last_up_total: up,
        };
        let ghost entered = q;
        self.quotas.insert(exe.to_string(), q);
        assert(entered.begins(exe@, budget_bytes, period, direction, snap.apps@, now));
        assert(self.enters(*old(self), exe@, entered));
    }

    /// Remove a quota. Returns whether its block is to be lifted.
    pub fn clear_quota(&mut self, exe: &str) -> (r: bool)
        requires
            old(self).wf(),
        ensures
            final(self).wf(),
            final(self).quotas@ == old(self).quotas@.remove(exe@),
            r == (old(self).quotas@.dom().contains(exe@) && old(self).quotas@[exe@].exceeded),
    {
        match self.quotas.remove(exe) {
            Some(q) => {
                proof {
                    let a = old(self).quotas.entries@;
                    let b = self.quotas.entries@;
                    let at = key_index(a, exe@);
                    assert(has_key(a, exe@));
                    assert forall|i: int| 0 <= i < b.len() implies (#[trigger] b[i]).1.wf() by {
                        if i < at {
                            assert(b[i] == a[i]);
                        } else {
                            assert(b[i] == a[i + 1]);
                        }
                    }
                }
                q.exceeded
            },
            None => false,
        }
    }

    /// Whether the usage of every quota after one accounting can be told.
    pub fn can_tick(&self, snap: &MonitorSnapshot, now: u64) -> (r: bool)
        requires
            self.wf(),
        ensures
            r == (self.fits(snap.apps@, now) && now + LONGEST_PERIOD_MS <= u64::MAX),
    {
        if now > u64::MAX - LONGEST_PERIOD_MS {
            return false;
        }
        for i in 0..self.quotas.entries.len()
            invariant
                self.wf(),
                forall|j: int|
                    #![trigger self.quotas.entries@[j]]
                    0 <= j < i ==> self.quotas.entries@[j].1.fits(
                        totals_of(snap.apps@, self.quotas.entries@[j].0@),
                        now,
                    ),
        {
            let t: Totals = latest_totals(&snap.apps, self.quotas.entries[i].0.as_str());
            if !self.quotas.entries[i].1.can_tick(t, now) {
                return false;
            }
        }
        true
    }

    /// Account for the present totals: handle resets, charge usage and hold it
    /// against the budgets. Returns what to block and what to unblock, in order.
    pub fn tick(&mut self, snap: &MonitorSnapshot, now: u64) -> (r: Vec<(String, bool)>)
        requires
            old(self).wf(),
            old(self).fits(snap.apps@, now),
            now + LONGEST_PERIOD_MS <= u64::MAX,
        ensures
            final(self).wf(),
            ticked_to(*old(self), snap.apps@, now, *final(self)),
            order_texts(r@) == old(self).all_orders(snap.apps@, now),
    {
        let mut actions: Vec<(String, bool)> = Vec::new();
        assert(order_texts(actions@) =~= Seq::empty());
        let ghost was = self.quotas.entries@;
        let n: usize = self.quotas.entries.len();
        let mut i: usize = 0;
        while i < n
            invariant
                was == old(self).quotas.entries@,
                old(self).wf(),
                old(self).fits(snap.apps@, now),
                now + LONGEST_PERIOD_MS <= u64::MAX,
                n == was.len(),
                i <= n,
                self.quotas.entries@.len() == n,
                forall|j: int| i <= j < n ==> #[trigger] self.quotas.entries@[j] == was[j],
                forall|j: int|
                    #![trigger self.quotas.entries@[j]]
                    0 <= j < i ==> self.quotas.entries@[j].0 == was[j].0
                        && self.quotas.entries@[j].1 == was[j].1.ticked(
                        totals_of(snap.apps@, was[j].0@),
                        now,
                    ) && self.quotas.entries@[j].1.wf(),
                order_texts(actions@) == orders_of(was, snap.apps@, now, i as int),
            decreases n - i,
        {
            let exe: String = self.quotas.entries[i].0.clone();
            let t: Totals = latest_totals(&snap.apps, exe.as_str());
            assert(self.quotas.entries@[i as int] == was[i as int]);
            let (lift, block) = self.quotas.entries[i].1.tick(t, now);
            let ghost before = order_texts(actions@);
            if lift {
                order(&mut actions, &exe, false);
            }
            if block {
                order(&mut actions, &exe, true);
            }
            proof {
                let more = was[i as int].1.orders(t, now).map_values(|b: bool| (exe@, b));
                assert(order_texts(actions@) =~= before + more);
            }
            i = i + 1;
        }
        proof {
            let b = self.quotas.entries@;
            assert forall|i: int, j: int| 0 <= i < j < b.len() implies (#[trigger] b[i]).0@ != (
            #[trigger] b[j]).0@ by {
                assert(was[i].0@ != was[j].0@);
            }
            assert forall|exe: Seq<char>| has_key(b, exe) == has_key(was, exe) by {
                if has_key(was, exe) {
                    assert(b[key_index(was, exe)].0@ == exe);
                }
                if has_key(b, exe) {
                    assert(was[key_index(b, exe)].0@ == exe);
                }
            }
            assert(self.quotas@.dom() =~= old(self).quotas@.dom());
            assert forall|exe: Seq<char>| #[trigger]
                old(self).quotas@.dom().contains(exe) implies self.quotas@[exe]
                == old(self).quotas@[exe].ticked(totals_of(snap.apps@, exe), now) by {
                let x = key_index(was, exe);
                assert(0 <= x < was.len() && was[x].0@ == exe);
                old(self).quotas.lemma_entry(x);
                assert(b[x].0@ == exe);
                self.quotas.lemma_entry(x);
            }
        }
        actions
    }

    /// The quotas with their usage, by name.
    pub fn list(&self, now: u64) -> (r: Vec<QuotaStatus>)
        requires
            self.wf(),
        ensures
            lists_quotas(r@, self.quotas@, now),
    {
        let mut items: Vec<QuotaStatus> = Vec::new();
        let mut keys: Vec<Name> = Vec::new();
        for i in 0..self.quotas.entries.len()
            invariant
                self.wf(),
                items@.len() == i,
                keys@.len() == i,
                forall|j: int|
                    #![trigger items@[j]]
                    0 <= j < i ==> self.quotas.entries@[j].1.shown_by(
                        items@[j],
                        self.quotas.entries@[j].0@,
                        now,
                    ),
                forall|j: int|
                    0 <= j < i ==> (#[trigger] keys@[j]).0@ == items@[j].name@,
        {
            let q: &QuotaEntry = &self.quotas.entries[i].1;
            let resets_in_secs: Option<u64> = match period_len(q.period) {
                Some(len) => {
                    let end: u64 = q.period_start_ms + len;
                    if end >= now {
                        Some((end - now) / 1000)
                    } else {
                        Some(0)
                    }
                },
                None => None,
            };
            keys.push(Name(chars(q.name.as_str())));
            items.push(
                QuotaStatus {
                    exe: self.quotas.entries[i].0.clone(),
                    name: q.name.clone(),
                    budget_bytes: q.budget_bytes,
                    used_bytes: q.used_bytes,
                    period: q.period,
                    direction: q.direction,
                    exceeded: q.exceeded,
                    resets_in_secs,
                },
            );
        }
        let ghost before = items@;
        let ghost entries = self.quotas.entries@;
        let out: Vec<QuotaStatus> = sorted(items, &keys);
        proof {
            let p = choose|p: Seq<int>| is_sorting(p, before, keys@, out@);
            assert forall|i: int|
                #![trigger out@[i]]
                0 <= i < out@.len() implies self.quotas@.dom().contains(out@[i].exe@)
                && self.quotas@[out@[i].exe@].shown_by(out@[i], out@[i].exe@, now) by {
                assert(out@[i] == before[p[i]]);
                self.quotas.lemma_entry(p[i]);
            }
            assert forall|i: int, j: int| 0 <= i < j < out@.len() implies (#[trigger] out@[i]).exe@
                != (#[trigger] out@[j]).exe@ by {
                assert(out@[i] == before[p[i]] && out@[j] == before[p[j]]);
                assert(p[i] != p[j]);
                if p[i] < p[j] {
                    assert(entries[p[i]].0@ != entries[p[j]].0@);
                } else {
                    assert(entries[p[j]].0@ != entries[p[i]].0@);
                }
            }
            assert forall|exe: Seq<char>| #[trigger]
                self.quotas@.dom().contains(exe) implies exists|i: int|
                0 <= i < out@.len() && (#[trigger] out@[i]).exe@ == exe by {
                let k = key_index(entries, exe);
                assert(0 <= k < entries.len() && entries[k].0@ == exe);
                assert(before[k].exe@ == exe);
                assert(p.contains(k));
                let i = choose|i: int| 0 <= i < p.len() && p[i] == k;
                assert(out@[i] == before[p[i]]);
            }
            assert forall|i: int, j: int| 0 <= i < j < out@.len() implies name_le(
                out@[i].name@,
                out@[j].name@,
            ) by {
                assert(keys@[p[i]].ranks(&keys@[p[j]]));
                assert(out@[i] == before[p[i]] && out@[j] == before[p[j]]);
            }
        }
        out
    }
}

// ---- Laws --------------------------------------------------------------------

/// An application is blocked when its usage exceeds its budget: after every
/// accounting the quota is exceeded exactly when more was used than the budget.
pub proof fn law_exceeded_above_budget(q: QuotaEntry, t: Totals, now: u64)
    requires
        q.fits(t, now),
        q.exceeded ==> q.used_bytes > q.budget_bytes,
    ensures
        q.ticked(t, now).exceeded == (q.ticked(t, now).used_bytes > q.budget_bytes),
{
}

/// Within a period a block is ordered exactly once: by the accounting that finds the
/// budget exceeded for the first time, and not again while it stays exceeded. Usage
/// up to the budget orders nothing.
pub proof fn law_block_is_ordered_once(q: QuotaEntry, t: Totals, now: u64)
    requires
        !q.is_due(now),
    ensures
        q.ticked(t, now).used_bytes > q.budget_bytes ==> q.ticked(t, now).exceeded,
        !q.exceeded && q.ticked(t, now).exceeded ==> q.orders(t, now) == seq![true],
        q.exceeded ==> q.ticked(t, now).exceeded && q.orders(t, now) == Seq::<bool>::empty(),
        !q.exceeded && q.ticked(t, now).used_bytes <= q.budget_bytes ==> !q.ticked(t, now).exceeded
            && q.orders(t, now) == Seq::<bool>::empty(),
{
    if q.ticked(t, now).exceeded && !q.exceeded {
        assert(q.orders(t, now) =~= seq![true]);
    } else {
        assert(q.orders(t, now) =~= Seq::<bool>::empty());
    }
}

/// The orders for one executable among all.
pub open spec fn orders_for(list: Seq<(Seq<char>, bool)>, exe: Seq<char>) -> Seq<bool>
    decreases list.len(),
{
    if list.len() == 0 {
        Seq::empty()
    } else {
        let rest = orders_for(list.drop_last(), exe);
        if list.last().0 == exe {
            rest.push(list.last().1)
        } else {
            rest
        }
    }
}

proof fn lemma_orders_concat(a: Seq<(Seq<char>, bool)>, b: Seq<(Seq<char>, bool)>, exe: Seq<char>)
    ensures
        orders_for(a + b, exe) == orders_for(a, exe) + orders_for(b, exe),
    decreases b.len(),
{
    if b.len() == 0 {
        assert(a + b =~= a);
        assert(orders_for(a, exe) + orders_for(b, exe) =~= orders_for(a, exe));
    } else {
        lemma_orders_concat(a, b.drop_last(), exe);
        assert((a + b).drop_last() =~= a + b.drop_last());
        assert((a + b).last() == b.last());
        assert(orders_for(a + b, exe) =~= orders_for(a, exe) + orders_for(b, exe));
    }
}

proof fn lemma_orders_of_one(v: Seq<bool>, to: Seq<char>, exe: Seq<char>)
    ensures
        orders_for(v.map_values(|b: bool| (to, b)), exe) == if to == exe {
            v
        } else {
            Seq::empty()
        },
    decreases v.len(),
{
    let list = v.map_values(|b: bool| (to, b));
    if v.len() > 0 {
        let rest = v.drop_last();
        lemma_orders_of_one(rest, to, exe);
        assert(list.drop_last() =~= rest.map_values(|b: bool| (to, b)));
        assert(list.last() == (to, v.last()));
        assert(rest.push(v.last()) =~= v);
    } else {
        assert(orders_for(list, exe) =~= Seq::<bool>::empty());
        assert(v =~= Seq::<bool>::empty());
    }
}

proof fn lemma_orders_of_prefix(
    m: QuotaManager,
    apps: Seq<AppStat>,
    now: u64,
    n: int,
    exe: Seq<char>,
)
    requires
        m.quotas.wf(),
        0 <= n <= m.quotas.entries@.len(),
    ensures
        orders_for(orders_of(m.quotas.entries@, apps, now, n), exe) == if exists|i: int|
            0 <= i < n && (#[trigger] m.quotas.entries@[i]).0@ == exe {
            m.quotas@[exe].orders(totals_of(apps, exe), now)
        } else {
            Seq::empty()
        },
    decreases n,
{
    let e = m.quotas.entries@;
    if n > 0 {
        let (to, q) = e[n - 1];
        let t = totals_of(apps, to@);
        let before = orders_of(e, apps, now, n - 1);
        let more = q.orders(t, now).map_values(|b: bool| (to@, b));
        lemma_orders_of_prefix(m, apps, now, n - 1, exe);
        lemma_orders_concat(before, more, exe);
        lemma_orders_of_one(q.orders(t, now), to@, exe);
        if to@ == exe {
            m.quotas.lemma_entry(n - 1);
            assert(e[n - 1].0@ == exe);
            assert forall|i: int| 0 <= i < n - 1 implies (#[trigger] e[i]).0@ != exe by {
                assert(e[i].0@ != e[n - 1].0@);
            }
            assert(orders_for(before, exe) + q.orders(t, now) =~= q.orders(t, now));
        } else {
            assert(orders_for(before, exe) + Seq::<bool>::empty() =~= orders_for(before, exe));
            if exists|i: int| 0 <= i < n && (#[trigger] e[i]).0@ == exe {
                let i = choose|i: int| 0 <= i < n && (#[trigger] e[i]).0@ == exe;
                assert(0 <= i < n - 1 && e[i].0@ == exe);
            }
        }
    }
}

/// Of all that an accounting orders, what concerns an executable is what its own
/// quota orders; an executable without a quota gets no order.
pub proof fn law_orders_of_each(m: QuotaManager, apps: Seq<AppStat>, now: u64, exe: Seq<char>)
    requires
        m.wf(),
    ensures
        orders_for(m.all_orders(apps, now), exe) == if m.quotas@.dom().contains(exe) {
            m.quotas@[exe].orders(totals_of(apps, exe), now)
        } else {
            Seq::empty()
        },
{
    let e = m.quotas.entries@;
    lemma_orders_of_prefix(m, apps, now, e.len() as int, exe);
    if m.quotas@.dom().contains(exe) {
        assert(e[key_index(e, exe)].0@ == exe);
    }
}

/// The block that results from carrying orders out one after the other.
pub open spec fn block_after(blocked: bool, orders: Seq<bool>) -> bool {
    if orders.len() == 0 {
        blocked
    } else {
        orders.last()
    }
}

/// Carrying out the orders of an accounting keeps the block of the application
/// equal to the state of its quota.
pub proof fn law_block_follows_quota(q: QuotaEntry, t: Totals, now: u64)
    ensures
        block_after(q.exceeded, q.orders(t, now)) == q.ticked(t, now).exceeded,
{
}

/// Carrying out what an accounting orders keeps the block of every application equal
/// to the state of its quota.
pub proof fn law_blocks_follow_quotas(
    a: QuotaManager,
    apps: Seq<AppStat>,
    now: u64,
    b: QuotaManager,
    exe: Seq<char>,
)
    requires
        a.wf(),
        ticked_to(a, apps, now, b),
    ensures
        block_after(a.is_exceeded(exe), orders_for(a.all_orders(apps, now), exe)) == b.is_exceeded(
            exe,
        ),
{
    law_orders_of_each(a, apps, now, exe);
    if a.quotas@.dom().contains(exe) {
        law_block_follows_quota(a.quotas@[exe], totals_of(apps, exe), now);
    }
}

/// Carrying out what setting a quota orders does so too, also where the quota takes
/// the place of one that was exceeded.
pub proof fn law_blocks_follow_new_quota(
    a: QuotaManager,
    set: Seq<char>,
    q: QuotaEntry,
    mid: QuotaManager,
    apps: Seq<AppStat>,
    now: u64,
    b: QuotaManager,
    exe: Seq<char>,
)
    requires
        !q.exceeded,
        mid.enters(a, set, q),
        ticked_to(mid, apps, now, b),
    ensures
        block_after(
            a.is_exceeded(exe),
            orders_for(a.lift_orders(set) + mid.all_orders(apps, now), exe),
        ) == b.is_exceeded(exe),
{
    let lift = a.lift_orders(set);
    let rest = mid.all_orders(apps, now);
    law_blocks_follow_quotas(mid, apps, now, b, exe);
    lemma_orders_concat(lift, rest, exe);
    reveal_with_fuel(orders_for, 3);
    if a.is_exceeded(set) {
        assert(lift.drop_last() =~= Seq::<(Seq<char>, bool)>::empty());
        assert(orders_for(lift, exe) =~= if set == exe {
            seq![false]
        } else {
            Seq::empty()
        });
    }
    assert(Seq::<bool>::empty() + orders_for(rest, exe) =~= orders_for(rest, exe));
    assert(seq![false] + Seq::<bool>::empty() =~= seq![false]);
}

/// A period that is over starts again from zero, and the application is no longer
/// blocked.
pub proof fn law_reset_unblocks(q: QuotaEntry, t: Totals, now: u64)
    requires
        q.is_due(now),
    ensures
        q.ticked(t, now).used_bytes == 0,
        q.ticked(t, now).period_start_ms == now,
        !q.ticked(t, now).exceeded,
        q.exceeded ==> q.orders(t, now) == seq![false],
{
    if q.exceeded {
        assert(q.orders(t, now) =~= seq![false]);
    }
}

proof fn lemma_named(entries: Seq<(String, QuotaEntry)>, exe: Seq<char>)
    ensures
        exceeded_names(entries).contains(exe) <==> exists|i: int|
            0 <= i < entries.len() && (#[trigger] entries[i]).0@ == exe && entries[i].1.exceeded,
    decreases entries.len(),
{
    let names = exceeded_names(entries);
    if entries.len() > 0 {
        let rest = entries.drop_last();
        let last = entries.len() - 1;
        let before = exceeded_names(rest);
        lemma_named(rest, exe);
        if names.contains(exe) {
            let k = choose|k: int| 0 <= k < names.len() && names[k] == exe;
            if k < before.len() {
                assert(before[k] == exe);
                let i = choose|i: int|
                    0 <= i < rest.len() && (#[trigger] rest[i]).0@ == exe && rest[i].1.exceeded;
                assert(entries[i] == rest[i]);
            } else {
                assert(entries[last].0@ == exe);
            }
        }
        if exists|i: int|
            0 <= i < entries.len() && (#[trigger] entries[i]).0@ == exe && entries[i].1.exceeded {
            let i = choose|i: int|
                0 <= i < entries.len() && (#[trigger] entries[i]).0@ == exe
                    && entries[i].1.exceeded;
            if i < last {
                assert(rest[i] == entries[i]);
                let k = choose|k: int| 0 <= k < before.len() && before[k] == exe;
                assert(names[k] == exe);
            } else {
                assert(names[names.len() - 1] == exe);
            }
        }
    }
}

/// The applications to be blocked again after a restart are exactly those whose quota
/// is exceeded.
pub proof fn law_exceeded_are_named(m: QuotaManager, exe: Seq<char>)
    requires
        m.wf(),
    ensures
        exceeded_names(m.quotas.entries@).contains(exe) <==> m.is_exceeded(exe),
{
    let e = m.quotas.entries@;
    lemma_named(e, exe);
    if m.is_exceeded(exe) {
        let i = key_index(e, exe);
        assert(has_key(e, exe));
        assert(e[i].0@ == exe && e[i].1.exceeded);
    }
    if exists|i: int| 0 <= i < e.len() && (#[trigger] e[i]).0@ == exe && e[i].1.exceeded {
        let i = choose|i: int| 0 <= i < e.len() && (#[trigger] e[i]).0@ == exe && e[i].1.exceeded;
        m.quotas.lemma_entry(i);
    }
}

/// A quota that is set is listed as it was set.
pub proof fn law_quota_is_listed(
    out: Seq<QuotaStatus>,
    quotas: Map<Seq<char>, QuotaEntry>,
    exe: Seq<char>,
    now: u64,
)
    requires
        lists_quotas(out, quotas, now),
        quotas.dom().contains(exe),
    ensures
        exists|i: int|
            0 <= i < out.len() && (#[trigger] out[i]).exe@ == exe && out[i].budget_bytes
                == quotas[exe].budget_bytes && out[i].period == quotas[exe].period
                && out[i].direction == quotas[exe].direction && out[i].used_bytes
                == quotas[exe].used_bytes,
{
    let i = choose|i: int| 0 <= i < out.len() && (#[trigger] out[i]).exe@ == exe;
    assert(quotas[exe].shown_by(out[i], out[i].exe@, now));
}

/// A lifetime quota never resets: usage only grows, and a block stays.
pub proof fn law_total_never_resets(q: QuotaEntry, t: Totals, now: u64)
    requires
        q.period == QuotaPeriod::Total,
        q.fits(t, now),
    ensures
        q.ticked(t, now).used_bytes >= q.used_bytes,
        q.exceeded ==> q.ticked(t, now).exceeded && q.orders(t, now).len() == 0,
        q.resets_in(now) is None,
{
}

/// Within a period two accountings charge what one accounting at the end would
/// have charged, where the totals only grew.
pub proof fn law_usage_adds_up(q: QuotaEntry, a: (u64, u64), b: (u64, u64), t1: u64, t2: u64)
    requires
        !q.is_due(t1),
        !q.is_due(t2),
        q.last_down_total <= a.0 <= b.0,
        q.last_up_total <= a.1 <= b.1,
        q.fits(Some(b), t2),
    ensures
        q.ticked(Some(a), t1).ticked(Some(b), t2).used_bytes == q.ticked(Some(b), t2).used_bytes,
{
}

/// Usage is not charged twice: with the same totals again, nothing changes.
pub proof fn law_tick_settles(q: QuotaEntry, t: Totals, now: u64)
    requires
        q.wf(),
        q.fits(t, now),
        now + LONGEST_PERIOD_MS <= u64::MAX,
    ensures
        q.ticked(t, now).ticked(t, now) == q.ticked(t, now),
        q.ticked(t, now).orders(t, now).len() == 0,
{
}

/// The report that counts for an executable is the last one on it, wherever it stands
/// in the list, and it counts with its totals down and up.
pub proof fn law_last_report_counts(apps: Seq<AppStat>, exe: Seq<char>, i: int)
    requires
        exe.len() > 0,
        0 <= i < apps.len(),
        apps[i].exe@ == exe,
        forall|j: int| i < j < apps.len() ==> (#[trigger] apps[j]).exe@ != exe,
    ensures
        totals_of(apps, exe) == Some((apps[i].down_total, apps[i].up_total)),
    decreases apps.len(),
{
    if i < apps.len() - 1 {
        let rest = apps.drop_last();
        assert(apps.last() == apps[apps.len() - 1]);
        assert forall|j: int| i < j < rest.len() implies (#[trigger] rest[j]).exe@ != exe by {
            assert(rest[j] == apps[j]);
        }
        law_last_report_counts(rest, exe, i);
    }
}

/// An executable has totals exactly if there is a report on it and its path is known.
pub proof fn law_totals_need_a_report(apps: Seq<AppStat>, exe: Seq<char>)
    ensures
        totals_of(apps, exe) is Some <==> exe.len() > 0 && exists|i: int|
            0 <= i < apps.len() && (#[trigger] apps[i]).exe@ == exe,
    decreases apps.len(),
{
    if apps.len() > 0 && exe.len() > 0 {
        let rest = apps.drop_last();
        law_totals_need_a_report(rest, exe);
        if totals_of(rest, exe) is Some {
            let i = choose|i: int| 0 <= i < rest.len() && (#[trigger] rest[i]).exe@ == exe;
            assert(apps[i].exe@ == exe);
        }
        if exists|i: int| 0 <= i < apps.len() && (#[trigger] apps[i]).exe@ == exe {
            let i = choose|i: int| 0 <= i < apps.len() && (#[trigger] apps[i]).exe@ == exe;
            if i < rest.len() {
                assert(rest[i].exe@ == exe);
            }
        }
    }
}

/// Reports on other executables do not matter for an executable, and a further report
/// on it takes the place of those before.
pub proof fn law_reports_are_kept_apart(apps: Seq<AppStat>, a: AppStat, exe: Seq<char>)
    requires
        exe.len() > 0,
    ensures
        a.exe@ != exe ==> totals_of(apps.push(a), exe) == totals_of(apps, exe),
        a.exe@ == exe ==> totals_of(apps.push(a), exe) == Some((a.down_total, a.up_total)),
        totals_of(Seq::empty(), exe) is None,
{
    assert(apps.push(a).drop_last() =~= apps);
}

/// A new quota counts from the first report on its executable, or from zero.
pub proof fn law_first_report_counts(apps: Seq<AppStat>, exe: Seq<char>, i: int)
    requires
        0 <= i <= apps.len(),
        i < apps.len() ==> apps[i].exe@ == exe,
        forall|j: int| 0 <= j < i ==> (#[trigger] apps[j]).exe@ != exe,
    ensures
        i < apps.len() ==> first_totals(apps, exe) == (apps[i].down_total, apps[i].up_total),
        i == apps.len() ==> first_totals(apps, exe) == (0u64, 0u64),
    decreases apps.len(),
{
    if i > 0 {
        let rest = apps.skip(1);
        assert forall|j: int| 0 <= j < i - 1 implies (#[trigger] rest[j]).exe@ != exe by {
            assert(rest[j] == apps[j + 1]);
        }
        law_first_report_counts(rest, exe, i - 1);
    }
}

/// An accounting within a period adds to the usage what the totals grew by in the
/// direction of the quota, and moves its cursors to the totals. Totals that went back
/// add nothing, and where there is no report nothing changes.
pub proof fn law_accounting_charges_growth(q: QuotaEntry, t: Totals, now: u64)
    requires
        q.fits(t, now),
        !q.is_due(now),
    ensures
        ({
            let r = q.ticked(t, now);
            let down = if t is Some && (t->0).0 > q.last_down_total {
                (t->0).0 - q.last_down_total
            } else {
                0
            };
            let up = if t is Some && (t->0).1 > q.last_up_total {
                (t->0).1 - q.last_up_total
            } else {
                0
            };
            &&& q.direction == Direction::Down ==> r.used_bytes == q.used_bytes + down
            &&& q.direction == Direction::Up ==> r.used_bytes == q.used_bytes + up
            &&& q.direction == Direction::Both ==> r.used_bytes == q.used_bytes + down + up
            &&& t is Some ==> r.last_down_total == (t->0).0 && r.last_up_total == (t->0).1
            &&& t is None ==> r.last_down_total == q.last_down_total && r.last_up_total
                == q.last_up_total
            &&& r.period_start_ms == q.period_start_ms
            &&& r.exceeded == (q.exceeded || r.used_bytes > q.budget_bytes)
        }),
{
}

/// An accounting changes nothing of what the quota is.
pub proof fn law_accounting_keeps_the_quota(q: QuotaEntry, t: Totals, now: u64)
    ensures
        q.ticked(t, now).name == q.name,
        q.ticked(t, now).budget_bytes == q.budget_bytes,
        q.ticked(t, now).period == q.period,
        q.ticked(t, now).direction == q.direction,
{
}

/// A period is over once its length has passed: an hour, a day, a week or thirty days.
/// The usage of the new period counts from the present totals.
pub proof fn law_periods_end(q: QuotaEntry, t: Totals, now: u64)
    ensures
        q.is_due(now) == match q.period {
            QuotaPeriod::Hourly => now - q.period_start_ms >= 60 * 60 * 1000,
            QuotaPeriod::Daily => now - q.period_start_ms >= 24 * 60 * 60 * 1000,
            QuotaPeriod::Weekly => now - q.period_start_ms >= 7 * 24 * 60 * 60 * 1000,
            QuotaPeriod::Monthly => now - q.period_start_ms >= 30 * 24 * 60 * 60 * 1000int,
            QuotaPeriod::Total => false,
        },
        q.is_due(now) && t is Some ==> q.ticked(t, now).last_down_total == (t->0).0 && q.ticked(
            t,
            now,
        ).last_up_total == (t->0).1,
        q.is_due(now) && t is None ==> q.ticked(t, now).last_down_total == q.last_down_total
            && q.ticked(t, now).last_up_total == q.last_up_total,
        q.is_due(now) ==> !q.ticked(t, now).is_due(now),
{
}

/// The time left in a period is told in whole seconds, and is nothing once the period
/// is over.
pub proof fn law_time_left(q: QuotaEntry, now: u64)
    requires
        q.wf(),
    ensures
        q.period == QuotaPeriod::Total <==> q.resets_in(now) is None,
        q.is_due(now) ==> q.resets_in(now) == Some(0u64),
        q.period != QuotaPeriod::Total ==> {
            let len: int = match q.period {
                QuotaPeriod::Hourly => 3_600_000,
                QuotaPeriod::Daily => 86_400_000,
                QuotaPeriod::Weekly => 604_800_000,
                _ => 2_592_000_000,
            };
            let left = q.period_start_ms + len - now;
            left >= 0 ==> 1000 * q.resets_in(now)->0 <= left < 1000 * q.resets_in(now)->0 + 1000
        },
{
}

/// Quotas are taken over as they were stored but for their cursors, which are at zero,
/// as the totals are after a restart. Of several for one executable the last counts.
pub proof fn law_stored_quotas_are_resumed(
    stored: Seq<(String, QuotaEntry)>,
    exe: Seq<char>,
    i: int,
)
    requires
        0 <= i < stored.len(),
        stored[i].0@ == exe,
        forall|j: int| i < j < stored.len() ==> (#[trigger] stored[j]).0@ != exe,
    ensures
        resumed(stored).dom().contains(exe),
        ({
            let q = stored[i].1;
            let r = resumed(stored)[exe];
            &&& r.name == q.name
            &&& r.budget_bytes == q.budget_bytes
            &&& r.period == q.period
            &&& r.direction == q.direction
            &&& r.used_bytes == q.used_bytes
            &&& r.period_start_ms == q.period_start_ms
            &&& r.exceeded == q.exceeded
            &&& r.last_down_total == 0
            &&& r.last_up_total == 0
        }),
    decreases stored.len(),
{
    if i < stored.len() - 1 {
        let rest = stored.drop_last();
        assert(stored.last() == stored[stored.len() - 1]);
        assert forall|j: int| i < j < rest.len() implies (#[trigger] rest[j]).0@ != exe by {
            assert(rest[j] == stored[j]);
        }
        law_stored_quotas_are_resumed(rest, exe, i);
    }
}

/// Nothing is taken over that was not stored.
pub proof fn law_only_stored_quotas_are_resumed(stored: Seq<(String, QuotaEntry)>, exe: Seq<char>)
    requires
        forall|j: int| 0 <= j < stored.len() ==> (#[trigger] stored[j]).0@ != exe,
    ensures
        !resumed(stored).dom().contains(exe),
    decreases stored.len(),
{
    if stored.len() > 0 {
        let rest = stored.drop_last();
        assert(stored.last() == stored[stored.len() - 1]);
        assert forall|j: int| 0 <= j < rest.len() implies (#[trigger] rest[j]).0@ != exe by {
            assert(rest[j] == stored[j]);
        }
        law_only_stored_quotas_are_resumed(rest, exe);
    }
}

/// A quota that is set begins with nothing used and nothing exceeded, at the present
/// moment, and with the totals of its first report behind it.
pub proof fn law_new_quota_begins_with_nothing_used(
    q: QuotaEntry,
    exe: Seq<char>,
    budget_bytes: u64,
    period: QuotaPeriod,
    direction: Direction,
    apps: Seq<AppStat>,
    now: u64,
)
    requires
        q.begins(exe, budget_bytes, period, direction, apps, now),
    ensures
        q.name@ == base_of(exe),
        q.budget_bytes == budget_bytes,
        q.period == period,
        q.direction == direction,
        q.used_bytes == 0,
        q.period_start_ms == now,
        !q.exceeded,
        q.last_down_total == first_totals(apps, exe).0,
        q.last_up_total == first_totals(apps, exe).1,
{
}

/// What was transferred before a quota was set is not charged: the accounting that
/// follows at once charges nothing, where there is one report on the application.
pub proof fn law_new_quota_charges_nothing(
    q: QuotaEntry,
    exe: Seq<char>,
    budget_bytes: u64,
    period: QuotaPeriod,
    direction: Direction,
    apps: Seq<AppStat>,
    now: u64,
    i: int,
)
    requires
        q.begins(exe, budget_bytes, period, direction, apps, now),
        exe.len() > 0,
        0 <= i < apps.len(),
        apps[i].exe@ == exe,
        forall|j: int| 0 <= j < apps.len() && j != i ==> (#[trigger] apps[j]).exe@ != exe,
    ensures
        q.ticked(totals_of(apps, exe), now).used_bytes == 0,
        !q.ticked(totals_of(apps, exe), now).exceeded,
        q.orders(totals_of(apps, exe), now) == Seq::<bool>::empty(),
{
    law_last_report_counts(apps, exe, i);
    law_first_report_counts(apps, exe, i);
    assert(q.orders(totals_of(apps, exe), now) =~= Seq::<bool>::empty());
}

/// An accounting can be made unless the usage would have more than 64 bits.
pub proof fn law_accounting_fits(q: QuotaEntry, t: Totals, now: u64)
    ensures
        q.is_due(now) ==> q.fits(t, now),
        t is None ==> q.fits(t, now),
        t is Some && !q.is_due(now) ==> {
            let down = if (t->0).0 > q.last_down_total {
                (t->0).0 - q.last_down_total
            } else {
                0
            };
            let up = if (t->0).1 > q.last_up_total {
                (t->0).1 - q.last_up_total
            } else {
                0
            };
            &&& q.direction == Direction::Down ==> (q.fits(t, now) <==> q.used_bytes + down
                <= u64::MAX)
            &&& q.direction == Direction::Up ==> (q.fits(t, now) <==> q.used_bytes + up
                <= u64::MAX)
            &&& q.direction == Direction::Both ==> (q.fits(t, now) <==> q.used_bytes + down + up
                <= u64::MAX)
        },
{
}

/// Every quota is accounted for, by the totals of its own executable.
pub proof fn law_every_quota_is_accounted_for(
    a: QuotaManager,
    apps: Seq<AppStat>,
    now: u64,
    b: QuotaManager,
    exe: Seq<char>,
)
    requires
        ticked_to(a, apps, now, b),
    ensures
        a.quotas@.dom().contains(exe) <==> b.quotas@.dom().contains(exe),
        a.quotas@.dom().contains(exe) ==> b.quotas@[exe] == a.quotas@[exe].ticked(
            totals_of(apps, exe),
            now,
        ),
{
}

/// Every quota is listed once, with all that is known of it and the time that is left,
/// and the list is in the order of names.
pub proof fn law_quota_listing_is_complete(
    out: Seq<QuotaStatus>,
    quotas: Map<Seq<char>, QuotaEntry>,
    exe: Seq<char>,
    now: u64,
)
    requires
        lists_quotas(out, quotas, now),
        quotas.dom().contains(exe),
    ensures
        exists|i: int|
            {
                &&& 0 <= i < out.len()
                &&& (#[trigger] out[i]).exe@ == exe
                &&& out[i].name@ == quotas[exe].name@
                &&& out[i].exceeded == quotas[exe].exceeded
                &&& out[i].resets_in_secs == quotas[exe].resets_in(now)
            },
        forall|i: int, j: int|
            0 <= i < j < out.len() ==> (#[trigger] out[i]).exe@ != (#[trigger] out[j]).exe@,
        forall|i: int, j: int|
            0 <= i < j < out.len() ==> name_le(#[trigger] out[i].name@, #[trigger] out[j].name@),
        forall|i: int| 0 <= i < out.len() ==> quotas.dom().contains((#[trigger] out[i]).exe@),
{
    let i = choose|i: int| 0 <= i < out.len() && (#[trigger] out[i]).exe@ == exe;
    assert(quotas[exe].shown_by(out[i], out[i].exe@, now));
}

/// Orders are taken as they are given.
pub proof fn law_orders_are_taken_as_given(v: Seq<(String, bool)>, i: int)
    requires
        0 <= i < v.len(),
    ensures
        order_texts(v).len() == v.len(),
        order_texts(v)[i] == (v[i].0@, v[i].1),
{
}

} // verus!
