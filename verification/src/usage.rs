//! Data usage of each application by day, week and month, kept across restarts.
//!
//! The totals of the traffic monitor start at zero with the daemon. The tracker
//! adds up what they grow by, in buckets that start again when their calendar
//! period is over.

use vstd::prelude::*;

use crate::calendar::Labels;
use crate::proto::{AppStat, MonitorSnapshot};
use crate::table::Table;

verus! {

/// The data is stored after every this many accountings.
pub const SAVE_EVERY: u32 = 3;

/// Whether the data is to be stored after the given number of accountings.
pub fn save_due(ticks: u32) -> (r: bool)
    ensures
        r == (ticks % SAVE_EVERY == 0),
{
    ticks % SAVE_EVERY == 0
}

/// Bytes of one period.
#[derive(Debug, Clone, Copy, PartialEq, Eq, Structural)]
pub struct Bucket {
    pub down: u64,
    pub up: u64,
}

impl Bucket {
    pub open spec fn empty() -> Bucket {
        Bucket { down: 0, up: 0 }
    }

    /// Whether more bytes can be counted.
    pub open spec fn has_room(self, down: u64, up: u64) -> bool {
        self.down + down <= u64::MAX && self.up + up <= u64::MAX
    }

    /// The bucket with more bytes.
    pub open spec fn plus(self, down: u64, up: u64) -> Bucket {
        Bucket { down: (self.down + down) as u64, up: (self.up + up) as u64 }
    }

    fn add(self, down: u64, up: u64) -> (r: Option<Bucket>)
        ensures
            r is Some <==> self.has_room(down, up),
            r is Some ==> r->0 == self.plus(down, up),
    {
        if down <= u64::MAX - self.down && up <= u64::MAX - self.up {
            Some(Bucket { down: self.down + down, up: self.up + up })
        } else {
            None
        }
    }
}

/// Usage of one application with its accounting cursor.
#[derive(Debug)]
pub struct AppEntry {
    pub today: Bucket,
    /// Label of the day that the bucket covers.
    pub today_date: String,
    pub week: Bucket,
    /// Label of the week that the bucket covers.
    pub week_start: String,
    pub month: Bucket,
    /// Label of the month that the bucket covers.
    pub month_start: String,
    /// Totals of the monitor at the last accounting.
    pub last_down: u64,
    pub last_up: u64,
}

/// Usage of one application as a value.
pub struct EntryModel {
    pub today: Bucket,
    pub today_date: Seq<char>,
    pub week: Bucket,
    pub week_start: Seq<char>,
    pub month: Bucket,
    pub month_start: Seq<char>,
    pub last_down: u64,
    pub last_up: u64,
}

impl View for AppEntry {
    type V = EntryModel;

    open spec fn view(&self) -> EntryModel {
        EntryModel {
            today: self.today,
            today_date: self.today_date@,
            week: self.week,
            week_start: self.week_start@,
            month: self.month,
            month_start: self.month_start@,
            last_down: self.last_down,
            last_up: self.last_up,
        }
    }
}

/// What a counter grew by; nothing if it went back.
pub open spec fn grown(now: u64, before: u64) -> u64 {
    if now >= before {
        (now - before) as u64
    } else {
        0
    }
}

fn growth(now: u64, before: u64) -> (r: u64)
    ensures
        r == grown(now, before),
{
    if now >= before {
        now - before
    } else {
        0
    }
}

impl EntryModel {
    /// An application seen for the first time: counting goes on from its present
    /// totals.
    pub open spec fn first_seen(app: AppStat, l: Labels) -> EntryModel {
        EntryModel {
            today: Bucket::empty(),
            today_date: l.today@,
            week: Bucket::empty(),
            week_start: l.week_start@,
            month: Bucket::empty(),
            month_start: l.month_start@,
            last_down: app.down_total,
            last_up: app.up_total,
        }
    }

    /// The usage with every bucket whose period is over emptied.
    pub open spec fn rolled(self, l: Labels) -> EntryModel {
        EntryModel {
            today: if self.today_date == l.today@ {
                self.today
            } else {
                Bucket::empty()
            },
            today_date: l.today@,
            week: if self.week_start == l.week_start@ {
                self.week
            } else {
                Bucket::empty()
            },
            week_start: l.week_start@,
            month: if self.month_start == l.month_start@ {
                self.month
            } else {
                Bucket::empty()
            },
            month_start: l.month_start@,
            ..self
        }
    }

    /// Whether the growth of the totals can be added to every bucket.
    pub open spec fn has_room(self, app: AppStat, l: Labels) -> bool {
        let down = grown(app.down_total, self.last_down);
        let up = grown(app.up_total, self.last_up);
        &&& self.rolled(l).today.has_room(down, up)
        &&& self.rolled(l).week.has_room(down, up)
        &&& self.rolled(l).month.has_room(down, up)
    }

    /// The usage after the growth of the totals is added to every bucket.
    pub open spec fn charged(self, app: AppStat, l: Labels) -> EntryModel {
        let down = grown(app.down_total, self.last_down);
        let up = grown(app.up_total, self.last_up);
        EntryModel {
            today: self.rolled(l).today.plus(down, up),
            week: self.rolled(l).week.plus(down, up),
            month: self.rolled(l).month.plus(down, up),
            last_down: app.down_total,
            last_up: app.up_total,
            ..self.rolled(l)
        }
    }
}

/// The entry that an application has before it is charged.
pub open spec fn entry_for(m: Map<Seq<char>, EntryModel>, app: AppStat, l: Labels) -> EntryModel {
    if m.dom().contains(app.exe@) {
        m[app.exe@]
    } else {
        EntryModel::first_seen(app, l)
    }
}

/// The usage after one report. Traffic without a known owner is not charged.
pub open spec fn after_app(
    m: Map<Seq<char>, EntryModel>,
    app: AppStat,
    l: Labels,
) -> Map<Seq<char>, EntryModel> {
    if app.exe@.len() == 0 {
        m
    } else {
        m.insert(app.exe@, entry_for(m, app, l).charged(app, l))
    }
}

/// The usage after a list of reports.
pub open spec fn after_apps(
    m: Map<Seq<char>, EntryModel>,
    apps: Seq<AppStat>,
    l: Labels,
) -> Map<Seq<char>, EntryModel>
    decreases apps.len(),
{
    if apps.len() == 0 {
        m
    } else {
        after_app(after_apps(m, apps.drop_last(), l), apps.last(), l)
    }
}

/// Whether no bucket runs over on the way through a list of reports.
pub open spec fn all_fit(m: Map<Seq<char>, EntryModel>, apps: Seq<AppStat>, l: Labels) -> bool
    decreases apps.len(),
{
    apps.len() == 0 || {
        &&& all_fit(m, apps.drop_last(), l)
        &&& apps.last().exe@.len() > 0 ==> entry_for(
            after_apps(m, apps.drop_last(), l),
            apps.last(),
            l,
        ).has_room(apps.last(), l)
    }
}

proof fn lemma_prefix_fits(m: Map<Seq<char>, EntryModel>, apps: Seq<AppStat>, l: Labels, n: int)
    requires
        0 <= n <= apps.len(),
        all_fit(m, apps, l),
    ensures
        all_fit(m, apps.take(n), l),
    decreases apps.len() - n,
{
    if n == apps.len() {
        assert(apps.take(n) =~= apps);
    } else {
        assert(apps.drop_last().take(n) =~= apps.take(n));
        lemma_prefix_fits(m, apps.drop_last(), l, n);
    }
}

/// Usage of one application, as it is handed to callers.
#[derive(Debug, Clone, Copy, PartialEq, Eq, Structural)]
pub struct AppUsage {
    pub today_down: u64,
    pub today_up: u64,
    pub week_down: u64,
    pub week_up: u64,
    pub month_down: u64,
    pub month_up: u64,
}

impl AppEntry {
    /// Empty the buckets whose period is over and add what the totals grew by.
    /// There is no result where a bucket would run over.
    fn charge(self, app: &AppStat, l: &Labels) -> (r: Option<AppEntry>)
        ensures
            r is Some <==> self@.has_room(*app, *l),
            r is Some ==> r->0@ == self@.charged(*app, *l),
    {
        let none: Bucket = Bucket { down: 0, up: 0 };
        let today: Bucket = if self.today_date == l.today {
            self.today
        } else {
            none
        };
        let week: Bucket = if self.week_start == l.week_start {
            self.week
        } else {
            none
        };
        let month: Bucket = if self.month_start == l.month_start {
            self.month
        } else {
            none
        };
        let dd: u64 = growth(app.down_total, self.last_down);
        let du: u64 = growth(app.up_total, self.last_up);
        match (today.add(dd, du), week.add(dd, du), month.add(dd, du)) {
            (Some(today), Some(week), Some(month)) => Some(
                AppEntry {
                    today,
                    today_date: l.today.clone(),
                    week,
                    week_start: l.week_start.clone(),
                    month,
                    month_start: l.month_start.clone(),
                    last_down: app.down_total,
                    last_up: app.up_total,
                },
            ),
            _ => None,
        }
    }
}

/// Usage by executable path.
pub struct UsageTracker {
    pub entries: Table<AppEntry>,
}

impl View for UsageTracker {
    type V = Map<Seq<char>, EntryModel>;

    open spec fn view(&self) -> Map<Seq<char>, EntryModel> {
        Map::new(
            |exe: Seq<char>| self.entries@.dom().contains(exe),
            |exe: Seq<char>| self.entries@[exe]@,
        )
    }
}

impl UsageTracker {
    pub open spec fn wf(&self) -> bool {
        self.entries.wf()
    }

    /// No usage.
    pub fn new() -> (r: UsageTracker)
        ensures
            r.wf(),
            r@ == Map::<Seq<char>, EntryModel>::empty(),
    {
        let r: UsageTracker = UsageTracker { entries: Table::new() };
        assert(r@ =~= Map::<Seq<char>, EntryModel>::empty());
        r
    }

    /// Take over stored usage.
    pub fn resume(&mut self, exe: String, entry: AppEntry)
        requires
            old(self).wf(),
        ensures
            final(self).wf(),
            final(self)@ == old(self)@.insert(exe@, entry@),
    {
        let ghost k = exe@;
        let ghost e = entry@;
        self.entries.insert(exe, entry);
        assert(self@ =~= old(self)@.insert(k, e));
    }

    /// Account for the present totals of the monitor. There is no result where a
    /// bucket would run over.
    pub fn tick(self, snap: &MonitorSnapshot, l: &Labels) -> (r: Option<UsageTracker>)
        requires
            self.wf(),
        ensures
            r is Some <==> all_fit(self@, snap.apps@, *l),
            r is Some ==> r->0.wf() && r->0@ == after_apps(self@, snap.apps@, *l),
    {
        let ghost start = self@;
        let ghost apps = snap.apps@;
        let mut data: UsageTracker = self;
        assert(apps.take(0) =~= Seq::<AppStat>::empty());
        for i in 0..snap.apps.len()
            invariant
                start == self@,
                apps == snap.apps@,
                data.wf(),
                all_fit(start, apps.take(i as int), *l),
                data@ == after_apps(start, apps.take(i as int), *l),
        {
            let app: &AppStat = &snap.apps[i];
            let ghost before = data@;
            assert(apps.take(i + 1).drop_last() =~= apps.take(i as int));
            assert(apps.take(i + 1).last() == *app);
            if !app.exe.as_str().is_empty() {
                let entry: AppEntry = match data.entries.remove(app.exe.as_str()) {
                    Some(e) => e,
                    None => AppEntry {
                        today: Bucket { down: 0, up: 0 },
                        today_date: l.today.clone(),
                        week: Bucket { down: 0, up: 0 },
                        week_start: l.week_start.clone(),
                        month: Bucket { down: 0, up: 0 },
                        month_start: l.month_start.clone(),
                        last_down: app.down_total,
                        last_up: app.up_total,
                    },
                };
                assert(entry@ == entry_for(before, *app, *l));
                match entry.charge(app, l) {
                    Some(e) => {
                        let ghost now = e@;
                        data.entries.insert(app.exe.clone(), e);
                        assert(data@ =~= before.insert(app.exe@, now));
                    },
                    None => {
                        proof {
                            if all_fit(start, apps, *l) {
                                lemma_prefix_fits(start, apps, *l, i + 1);
                            }
                        }
                        return None;
                    },
                }
            }
        }
        assert(apps.take(apps.len() as int) =~= apps);
        Some(data)
    }

    /// The latest usage of every application.
    pub fn get_all(&self) -> (r: Vec<(String, AppUsage)>)
        requires
            self.wf(),
        ensures
            r@.len() == self.entries.entries@.len(),
            forall|i: int|
                #![trigger r@[i]]
                0 <= i < r@.len() ==> r@[i].0@ == self.entries.entries@[i].0@ && self@.dom().contains(
                    r@[i].0@,
                ) && r@[i].1 == (AppUsage {
                    today_down: self@[r@[i].0@].today.down,
                    today_up: self@[r@[i].0@].today.up,
                    week_down: self@[r@[i].0@].week.down,
                    week_up: self@[r@[i].0@].week.up,
                    month_down: self@[r@[i].0@].month.down,
                    month_up: self@[r@[i].0@].month.up,
                }),
    {
        let mut r: Vec<(String, AppUsage)> = Vec::new();
        for i in 0..self.entries.entries.len()
            invariant
                self.wf(),
                r@.len() == i,
                forall|j: int|
                    #![trigger r@[j]]
                    0 <= j < i ==> r@[j].0@ == self.entries.entries@[j].0@
                        && self@.dom().contains(r@[j].0@) && r@[j].1 == (AppUsage {
                        today_down: self@[r@[j].0@].today.down,
                        today_up: self@[r@[j].0@].today.up,
                        week_down: self@[r@[j].0@].week.down,
                        week_up: self@[r@[j].0@].week.up,
                        month_down: self@[r@[j].0@].month.down,
                        month_up: self@[r@[j].0@].month.up,
                    }),
        {
            proof {
                self.entries.lemma_entry(i as int);
            }
            let e: &AppEntry = &self.entries.entries[i].1;
            r.push(
                (
                    self.entries.entries[i].0.clone(),
                    AppUsage {
                        today_down: e.today.down,
                        today_up: e.today.up,
                        week_down: e.week.down,
                        week_up: e.week.up,
                        month_down: e.month.down,
                        month_up: e.month.up,
                    },
                ),
            );
        }
        r
    }
}

// ---- Laws --------------------------------------------------------------------

/// While no period ends, accountings add up: charging at two moments gives what
/// one charge at the later moment gives, where the totals only grew.
pub proof fn law_usage_adds_up(e: EntryModel, a: AppStat, b: AppStat, l: Labels)
    requires
        e.last_down <= a.down_total <= b.down_total,
        e.last_up <= a.up_total <= b.up_total,
        e.has_room(b, l),
    ensures
        e.has_room(a, l),
        e.charged(a, l).has_room(b, l),
        e.charged(a, l).charged(b, l) == e.charged(b, l),
{
}

/// A restart of the monitor, whose totals then begin again below the cursor, adds
/// nothing and loses nothing of what was counted in the running periods.
pub proof fn law_restart_keeps_usage(e: EntryModel, a: AppStat, l: Labels)
    requires
        a.down_total <= e.last_down,
        a.up_total <= e.last_up,
        e.today_date == l.today@,
        e.week_start == l.week_start@,
        e.month_start == l.month_start@,
    ensures
        e.has_room(a, l),
        e.charged(a, l).today == e.today,
        e.charged(a, l).week == e.week,
        e.charged(a, l).month == e.month,
{
}

/// A new day empties the bucket of the day and leaves those of a week and a month
/// that go on.
pub proof fn law_new_day(e: EntryModel, l: Labels)
    requires
        e.today_date != l.today@,
        e.week_start == l.week_start@,
        e.month_start == l.month_start@,
    ensures
        e.rolled(l).today == Bucket::empty(),
        e.rolled(l).week == e.week,
        e.rolled(l).month == e.month,
{
}

/// Every report counts: accounting for reports and then for more of them is accounting
/// for all.
pub proof fn law_reports_add_up(
    m: Map<Seq<char>, EntryModel>,
    a: Seq<AppStat>,
    b: Seq<AppStat>,
    l: Labels,
)
    ensures
        after_apps(m, a + b, l) == after_apps(after_apps(m, a, l), b, l),
        all_fit(m, a + b, l) <==> all_fit(m, a, l) && all_fit(after_apps(m, a, l), b, l),
        after_apps(m, Seq::empty(), l) == m,
        all_fit(m, Seq::empty(), l),
    decreases b.len(),
{
    if b.len() == 0 {
        assert(a + b =~= a);
    } else {
        law_reports_add_up(m, a, b.drop_last(), l);
        assert((a + b).drop_last() =~= a + b.drop_last());
        assert((a + b).last() == b.last());
    }
}

/// A report adds what the totals grew by since the last one to each bucket, after those
/// whose period is over were emptied. The first report of an application adds nothing.
pub proof fn law_report_is_charged(m: Map<Seq<char>, EntryModel>, app: AppStat, l: Labels)
    requires
        app.exe@.len() > 0,
        all_fit(m, seq![app], l),
    ensures
        ({
            let after = after_apps(m, seq![app], l);
            let r = after[app.exe@];
            let known = m.dom().contains(app.exe@);
            let e = m[app.exe@];
            let down: int = if known && app.down_total > e.last_down {
                app.down_total - e.last_down
            } else {
                0
            };
            let up: int = if known && app.up_total > e.last_up {
                app.up_total - e.last_up
            } else {
                0
            };
            let day = known && e.today_date == l.today@;
            let week = known && e.week_start == l.week_start@;
            let month = known && e.month_start == l.month_start@;
            &&& after.dom() == m.dom().insert(app.exe@)
            &&& forall|other: Seq<char>|
                other != app.exe@ && m.dom().contains(other) ==> #[trigger] after[other]
                    == m[other]
            &&& day ==> r.today.down == e.today.down + down && r.today.up == e.today.up + up
            &&& !day ==> r.today.down == down && r.today.up == up
            &&& week ==> r.week.down == e.week.down + down && r.week.up == e.week.up + up
            &&& !week ==> r.week.down == down && r.week.up == up
            &&& month ==> r.month.down == e.month.down + down && r.month.up == e.month.up + up
            &&& !month ==> r.month.down == down && r.month.up == up
            &&& r.last_down == app.down_total
            &&& r.last_up == app.up_total
            &&& r.today_date == l.today@
            &&& r.week_start == l.week_start@
            &&& r.month_start == l.month_start@
        }),
{
    reveal_with_fuel(after_apps, 2);
    reveal_with_fuel(all_fit, 2);
    assert(seq![app].drop_last() =~= Seq::<AppStat>::empty());
    assert(after_apps(m, seq![app], l).dom() =~= m.dom().insert(app.exe@));
}

/// Traffic without a known owner is charged to nobody.
pub proof fn law_unresolved_is_not_charged(m: Map<Seq<char>, EntryModel>, app: AppStat, l: Labels)
    requires
        app.exe@.len() == 0,
    ensures
        after_apps(m, seq![app], l) == m,
        all_fit(m, seq![app], l),
{
    reveal_with_fuel(after_apps, 2);
    reveal_with_fuel(all_fit, 2);
    assert(seq![app].drop_last() =~= Seq::<AppStat>::empty());
}

/// Every application of a snapshot is charged by its own report, wherever this stands,
/// and no other report touches it.
pub proof fn law_every_application_is_charged(
    m: Map<Seq<char>, EntryModel>,
    apps: Seq<AppStat>,
    l: Labels,
    i: int,
)
    requires
        0 <= i < apps.len(),
        forall|j: int|
            0 <= j < apps.len() && j != i ==> (#[trigger] apps[j]).exe@ != apps[i].exe@,
    ensures
        after_apps(m, apps, l).dom().contains(apps[i].exe@) == after_apps(
            m,
            seq![apps[i]],
            l,
        ).dom().contains(apps[i].exe@),
        after_apps(m, apps, l)[apps[i].exe@] == after_apps(m, seq![apps[i]], l)[apps[i].exe@],
    decreases apps.len(),
{
    let exe = apps[i].exe@;
    let a = apps.take(i);
    let one = seq![apps[i]];
    let b = apps.skip(i + 1);
    assert(apps =~= a + one + b);
    law_reports_add_up(m, a + one, b, l);
    law_reports_add_up(m, a, one, l);
    assert forall|j: int| 0 <= j < a.len() implies (#[trigger] a[j]).exe@ != exe by {
        assert(a[j] == apps[j]);
    }
    assert forall|j: int| 0 <= j < b.len() implies (#[trigger] b[j]).exe@ != exe by {
        assert(b[j] == apps[i + 1 + j]);
    }
    law_other_reports_change_nothing(m, a, l, exe);
    law_other_reports_change_nothing(after_apps(m, a + one, l), b, l, exe);
    reveal_with_fuel(after_apps, 2);
    assert(one.drop_last() =~= Seq::<AppStat>::empty());
}

/// Reports on other applications leave the usage of an application as it was.
pub proof fn law_other_reports_change_nothing(
    m: Map<Seq<char>, EntryModel>,
    apps: Seq<AppStat>,
    l: Labels,
    exe: Seq<char>,
)
    requires
        forall|j: int| 0 <= j < apps.len() ==> (#[trigger] apps[j]).exe@ != exe,
    ensures
        after_apps(m, apps, l).dom().contains(exe) == m.dom().contains(exe),
        after_apps(m, apps, l)[exe] == m[exe],
    decreases apps.len(),
{
    if apps.len() > 0 {
        let rest = apps.drop_last();
        assert forall|j: int| 0 <= j < rest.len() implies (#[trigger] rest[j]).exe@ != exe by {
            assert(rest[j] == apps[j]);
        }
        law_other_reports_change_nothing(m, rest, l, exe);
        assert(apps.last() == apps[apps.len() - 1]);
    }
}

/// A report can be charged unless a bucket would have more than 64 bits.
pub proof fn law_charges_fit(m: Map<Seq<char>, EntryModel>, app: AppStat, l: Labels)
    requires
        app.exe@.len() > 0,
    ensures
        !m.dom().contains(app.exe@) ==> all_fit(m, seq![app], l),
        m.dom().contains(app.exe@) ==> {
            let e = m[app.exe@];
            let down: int = if app.down_total > e.last_down {
                app.down_total - e.last_down
            } else {
                0
            };
            let up: int = if app.up_total > e.last_up {
                app.up_total - e.last_up
            } else {
                0
            };
            all_fit(m, seq![app], l) <==> {
                &&& e.today_date == l.today@ ==> e.today.down + down <= u64::MAX && e.today.up
                    + up <= u64::MAX
                &&& e.week_start == l.week_start@ ==> e.week.down + down <= u64::MAX && e.week.up
                    + up <= u64::MAX
                &&& e.month_start == l.month_start@ ==> e.month.down + down <= u64::MAX
                    && e.month.up + up <= u64::MAX
            }
        },
{
    reveal_with_fuel(after_apps, 2);
    reveal_with_fuel(all_fit, 2);
    assert(seq![app].drop_last() =~= Seq::<AppStat>::empty());
}

/// The usage of an application is what its entry holds.
pub proof fn law_usage_is_what_is_kept(t: UsageTracker, exe: Seq<char>)
    ensures
        t@.dom().contains(exe) <==> t.entries@.dom().contains(exe),
        t@.dom().contains(exe) ==> {
            let (m, e) = (t@[exe], t.entries@[exe]);
            &&& m.today == e.today && m.today_date == e.today_date@
            &&& m.week == e.week && m.week_start == e.week_start@
            &&& m.month == e.month && m.month_start == e.month_start@
            &&& m.last_down == e.last_down && m.last_up == e.last_up
        },
{
}

/// The data is stored after every third accounting.
pub proof fn law_stored_every_third_time(ticks: u32)
    ensures
        ticks % SAVE_EVERY == ticks % 3,
{
}

} // verus!
