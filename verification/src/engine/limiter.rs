//! The desired state of the limiter, and the plans that bring it onto the kernel.
//!
//! Caps of the whole host are shaped by trees of classes, on the interface for
//! uploads and on an intermediate device for downloads. Caps of applications are
//! shaped in the same trees where a packet classifier can steer their traffic,
//! and policed by the packet filter where it cannot.

use vstd::prelude::*;

use crate::engine::cgroup::{app_rel, relative};
use crate::engine::group_name::{dir_text, path_hash, sanitize_dir};
use crate::engine::nft::{apply, rule_models, script, AppRule, RuleModel};
use crate::engine::step::{
    add_step, all_within, extend, in_context, plan, Step, StepModel,
};
use crate::engine::tc::{
    add_ingress_redirect, app_classid, build_egress_tree, build_ingress_scoped, build_scoped_tree,
    class_add, clear_clsact, clear_egress, clear_ingress, clsact_clear, del_ingress_redirect,
    ifb_app_class, ifb_clear, ifb_del, ifb_root, ifb_root_steps, ingress_del, ingress_scoped,
    or_else, redirect_add, redirect_del, root_del, scoped_tree, tree, LINE_RATE_BPS,
};
use crate::order::{is_sorting, name_le, sorted, Name, Ranked};
use crate::proto::{AppLimit, HostLimit, LimiterState, Scope};
use crate::table::{has_key, key_index, Table};
use crate::text::{base_of, basename, chars, same};

verus! {

/// The intermediate device of inbound traffic.
pub const IFB_DEV: &'static str = "ifbcurb";

/// The first class that is given to an application.
pub const FIRST_MINOR: u16 = 0x10;

/// Number of classes that can be given to applications.
pub const CLASS_COUNT: usize = 0xfff0;

/// The number of a class of the tree `1:`, by which the classifier names it.
pub open spec fn class_number(minor: u16) -> u32 {
    (0x1_0000 + minor) as u32
}

/// The number of a class of the tree `1:`.
pub fn classid(minor: u16) -> (r: u32)
    ensures
        r == class_number(minor),
{
    0x1_0000 + minor as u32
}

/// Whether downloads of applications are to be shaped, from the value of
/// `$CURB_EBPF_INGRESS`. They are not unless it says so.
pub fn wants_ingress(value: Option<&str>) -> (r: bool)
    ensures
        r == (value is Some && (value->0@ == "1"@ || value->0@ == "true"@ || value->0@ == "yes"@
            || value->0@ == "on"@)),
{
    match value {
        Some(v) => same(v, "1") || same(v, "true") || same(v, "yes") || same(v, "on"),
        None => false,
    }
}

/// The rule of an application.
#[derive(Debug)]
pub struct AppRuleState {
    /// Display name.
    pub name: String,
    /// Directory name of its group.
    pub dir: String,
    pub down_bps: Option<u64>,
    pub up_bps: Option<u64>,
    pub scope: Scope,
    /// Set while a quota is exceeded.
    pub blocked: bool,
    /// Its class.
    pub minor: u16,
}

/// The rule of an application as a value.
pub struct Rule {
    pub name: Seq<char>,
    pub dir: Seq<char>,
    pub down_bps: Option<u64>,
    pub up_bps: Option<u64>,
    pub scope: Scope,
    pub blocked: bool,
    pub minor: u16,
}

impl View for AppRuleState {
    type V = Rule;

    open spec fn view(&self) -> Rule {
        Rule {
            name: self.name@,
            dir: self.dir@,
            down_bps: self.down_bps,
            up_bps: self.up_bps,
            scope: self.scope,
            blocked: self.blocked,
            minor: self.minor,
        }
    }
}

impl Rule {
    /// A rule without effect.
    pub open spec fn idle(exe: Seq<char>, minor: u16) -> Rule {
        Rule {
            name: base_of(exe),
            dir: dir_text(exe, path_hash(exe)),
            down_bps: None,
            up_bps: None,
            scope: Scope::Both,
            blocked: false,
            minor,
        }
    }

    /// Whether the rule has no effect.
    pub open spec fn is_idle(self) -> bool {
        self.down_bps is None && self.up_bps is None && !self.blocked
    }
}

impl AppRuleState {
    /// Whether the rule has no effect, so that it and its group can be dropped.
    pub fn is_empty(&self) -> (r: bool)
        ensures
            r == self@.is_idle(),
    {
        self.down_bps.is_none() && self.up_bps.is_none() && !self.blocked
    }
}

fn idle_rule(exe: &str, minor: u16) -> (r: AppRuleState)
    ensures
        r@ == Rule::idle(exe@, minor),
{
    AppRuleState {
        name: basename(exe),
        dir: sanitize_dir(exe),
        down_bps: None,
        up_bps: None,
        scope: Scope::Both,
        blocked: false,
        minor,
    }
}

/// The entries of the rules, in the order in which plans go through them.
pub open spec fn rules_of(entries: Seq<(String, AppRuleState)>) -> Seq<Rule> {
    entries.map_values(|e: (String, AppRuleState)| e.1@)
}

/// The classes of the applications with an upload cap on all remote addresses. A
/// class takes in all traffic of an application, so a cap on one zone gets none.
pub open spec fn up_classes(rules: Seq<Rule>) -> Seq<(u16, u64)>
    decreases rules.len(),
{
    if rules.len() == 0 {
        Seq::empty()
    } else {
        let rest = up_classes(rules.drop_last());
        let r = rules.last();
        if r.scope == Scope::Both && r.up_bps is Some {
            rest.push((r.minor, r.up_bps->0))
        } else {
            rest
        }
    }
}

/// The classes of the applications with a download cap on all remote addresses.
pub open spec fn down_classes(rules: Seq<Rule>) -> Seq<(u16, u64)>
    decreases rules.len(),
{
    if rules.len() == 0 {
        Seq::empty()
    } else {
        let rest = down_classes(rules.drop_last());
        let r = rules.last();
        if r.scope == Scope::Both && r.down_bps is Some {
            rest.push((r.minor, r.down_bps->0))
        } else {
            rest
        }
    }
}

/// Steer the traffic of the applications with a cap on all remote addresses to
/// their classes.
pub open spec fn class_maps(rules: Seq<Rule>) -> Seq<StepModel>
    decreases rules.len(),
{
    if rules.len() == 0 {
        Seq::empty()
    } else {
        let rest = class_maps(rules.drop_last());
        let r = rules.last();
        if r.scope == Scope::Both && (r.up_bps is Some || r.down_bps is Some) {
            rest.push(StepModel::MapClass { dir: r.dir, classid: class_number(r.minor) })
        } else {
            rest
        }
    }
}

/// What the packet filter is to do with an application. A cap that is shaped is not
/// policed as well; one on a single zone is policed, as it is never shaped.
pub open spec fn policed(r: Rule, shapes_up: bool, shapes_down: bool) -> RuleModel {
    RuleModel {
        group: relative(r.dir),
        down_bps: if shapes_down && r.scope == Scope::Both {
            None
        } else {
            r.down_bps
        },
        up_bps: if shapes_up && r.scope == Scope::Both {
            None
        } else {
            r.up_bps
        },
        scope: r.scope,
        blocked: r.blocked,
    }
}

/// The inbound classes of applications on the intermediate device. No ceiling is
/// below its rate.
pub open spec fn inbound_classes(classes: Seq<(u16, u64)>, ceil: u64) -> Seq<StepModel> {
    classes.map_values(
        |c: (u16, u64)|
            class_add(
                IFB_DEV@,
                "1:"@,
                app_classid(c.0),
                c.1,
                if ceil >= c.1 {
                    ceil
                } else {
                    c.1
                },
            ),
    )
}

/// Remove the groups of applications.
pub open spec fn group_removals(rules: Seq<Rule>) -> Seq<StepModel> {
    rules.map_values(|r: Rule| StepModel::RemoveGroup { dir: r.dir })
}

/// The desired state of the limiter.
pub struct Engine {
    /// Caps of the host, the master switch and the interface.
    pub limiter: LimiterState,
    /// Rules by executable path.
    pub apps: Table<AppRuleState>,
    /// Whether the packet classifier is attached. Without it the packet filter
    /// polices applications in both directions.
    pub shaper: bool,
    /// Whether the classifier also steers inbound traffic.
    pub ebpf_ingress: bool,
    /// The class that the next new application gets, unless it is in use.
    pub next_minor: u16,
}

/// The class after a class.
pub open spec fn minor_after(m: u16) -> u16 {
    if m == u16::MAX {
        FIRST_MINOR
    } else {
        (m + 1) as u16
    }
}

/// Whether an application has the given class.
pub open spec fn uses(rules: Map<Seq<char>, Rule>, m: u16) -> bool {
    exists|exe: Seq<char>| #[trigger] rules.dom().contains(exe) && rules[exe].minor == m
}

/// The first class from `m` on that is not in use, among `tries` of them; the one
/// after these where all are in use.
pub open spec fn class_from(rules: Map<Seq<char>, Rule>, m: u16, tries: nat) -> u16
    decreases tries,
{
    if tries == 0 || !uses(rules, m) {
        m
    } else {
        class_from(rules, minor_after(m), (tries - 1) as nat)
    }
}

fn following(m: u16) -> (r: u16)
    ensures
        r == minor_after(m),
{
    if m == u16::MAX {
        FIRST_MINOR
    } else {
        m + 1
    }
}

/// Whether a list shows each rule once, by name, with the number of processes.
pub open spec fn lists_limits(
    out: Seq<AppLimit>,
    entries: Seq<(String, AppRuleState)>,
    pids: Seq<u32>,
) -> bool {
    &&& out.len() == entries.len()
    &&& exists|p: Seq<int>| #[trigger] lists_in_order(out, entries, pids, p)
}

/// Whether a list shows the rules in the order `p`, which is by name.
pub open spec fn lists_in_order(
    out: Seq<AppLimit>,
    entries: Seq<(String, AppRuleState)>,
    pids: Seq<u32>,
    p: Seq<int>,
) -> bool {
    &&& p.len() == out.len()
    &&& forall|i: int| 0 <= i < p.len() ==> 0 <= #[trigger] p[i] < entries.len()
    &&& forall|i: int, j: int| 0 <= i < j < p.len() ==> p[i] != p[j]
    &&& forall|k: int| 0 <= k < entries.len() ==> #[trigger] p.contains(k)
    &&& forall|i: int|
        #![trigger out[i]]
        0 <= i < out.len() ==> shows(out[i], entries[p[i]].0@, entries[p[i]].1@, pids[p[i]])
    &&& forall|i: int, j: int| 0 <= i < j < out.len() ==> name_le(out[i].name@, out[j].name@)
}

/// Whether a listing shows a rule.
pub open spec fn shows(l: AppLimit, exe: Seq<char>, r: Rule, pids: u32) -> bool {
    &&& l.exe@ == exe
    &&& l.name@ == r.name
    &&& l.down_bps == r.down_bps
    &&& l.up_bps == r.up_bps
    &&& l.scope == r.scope
    &&& l.pids == pids
}

impl Engine {
    /// Classes are given to applications from [`FIRST_MINOR`] on.
    pub open spec fn wf(&self) -> bool {
        &&& self.apps.wf()
        &&& self.next_minor >= FIRST_MINOR
        &&& forall|exe: Seq<char>| #[trigger]
            self.apps@.dom().contains(exe) ==> self.apps@[exe].minor >= FIRST_MINOR
    }

    /// No two applications have the same class.
    pub open spec fn minors_apart(&self) -> bool {
        forall|a: Seq<char>, b: Seq<char>|
            #![trigger self.apps@[a], self.apps@[b]]
            self.apps@.dom().contains(a) && self.apps@.dom().contains(b) && a != b
                ==> self.apps@[a].minor != self.apps@[b].minor
    }

    /// No class was given out twice yet: those in use lie below the next one.
    pub open spec fn minors_fresh(&self) -> bool {
        forall|exe: Seq<char>| #[trigger]
            self.apps@.dom().contains(exe) ==> self.apps@[exe].minor < self.next_minor
    }

    /// The class that a new application gets: the next one that is not in use.
    pub open spec fn next_class(&self) -> u16 {
        class_from(self.rules(), self.next_minor, CLASS_COUNT as nat)
    }

    /// Classes stay apart from `before` to here, where a rule was entered for `exe`:
    /// an application that is tracked keeps its class, and a new one gets a class
    /// that is not in use, as long as there is one. Up to the last class none is
    /// given out twice.
    pub open spec fn classes_kept(&self, before: &Engine, exe: Seq<char>) -> bool {
        &&& before.minors_apart() && (before.rules().dom().contains(exe)
            || before.apps.entries@.len() < CLASS_COUNT) ==> self.minors_apart()
        &&& before.minors_fresh() && before.next_minor < u16::MAX ==> self.minors_fresh()
    }

    /// The rules by executable path.
    pub open spec fn rules(&self) -> Map<Seq<char>, Rule> {
        Map::new(
            |exe: Seq<char>| self.apps@.dom().contains(exe),
            |exe: Seq<char>| self.apps@[exe]@,
        )
    }

    /// The rules in the order of the entries.
    pub open spec fn in_order(&self) -> Seq<Rule> {
        rules_of(self.apps.entries@)
    }

    /// Whether downloads of applications are shaped.
    pub open spec fn shapes_down(&self) -> bool {
        self.shaper && self.ebpf_ingress
    }

    /// Rebuild outbound shaping.
    pub open spec fn egress_plan(&self) -> Seq<StepModel> {
        let host = self.limiter.host;
        let cleared = seq![root_del(self.limiter.interface@)] + (if self.shaper {
            seq![StepModel::ClearClasses]
        } else {
            Seq::empty()
        });
        if !self.limiter.enabled {
            cleared
        } else {
            cleared + all_within(
                tree(
                    self.limiter.interface@,
                    "dst"@,
                    host.up_bps,
                    host.lan.up_bps,
                    host.internet.up_bps,
                    if self.shaper {
                        up_classes(self.in_order())
                    } else {
                        Seq::empty()
                    },
                ),
                "building egress HTB tree"@,
            ) + (if self.shaper {
                class_maps(self.in_order())
            } else {
                Seq::empty()
            })
        }
    }

    /// Drop the redirect and the intermediate device.
    pub open spec fn ingress_cleared(&self) -> Seq<StepModel> {
        redirect_del(self.limiter.interface@) + seq![root_del(IFB_DEV@), ifb_del(IFB_DEV@)]
    }

    /// Rebuild inbound shaping. Caps of zones need the tree with the classes of the
    /// zones, whether or not the classifier steers inbound traffic.
    pub open spec fn ingress_plan(&self) -> Seq<StepModel> {
        let host = self.limiter.host;
        let classes = down_classes(self.in_order());
        if !self.shapes_down() {
            if self.limiter.enabled && (host.down_bps is Some || host.lan.down_bps is Some
                || host.internet.down_bps is Some) {
                self.ingress_cleared() + all_within(
                    ingress_scoped(
                        self.limiter.interface@,
                        IFB_DEV@,
                        host.down_bps,
                        host.lan.down_bps,
                        host.internet.down_bps,
                        Seq::empty(),
                    ),
                    "building scoped host download shaping"@,
                )
            } else {
                self.ingress_cleared()
            }
        } else if self.limiter.enabled && (host.lan.down_bps is Some || host.internet.down_bps
            is Some) {
            self.ingress_cleared() + all_within(
                scoped_tree(
                    IFB_DEV@,
                    host.down_bps,
                    host.lan.down_bps,
                    host.internet.down_bps,
                    classes,
                ),
                "building IFB HTB root"@,
            ) + all_within(
                redirect_add(self.limiter.interface@, IFB_DEV@),
                "adding mirred ingress redirect"@,
            )
        } else if self.limiter.enabled && (host.down_bps is Some || classes.len() > 0) {
            self.ingress_cleared() + all_within(
                ifb_root_steps(IFB_DEV@, host.down_bps),
                "building IFB HTB root"@,
            ) + all_within(
                inbound_classes(classes, or_else(host.down_bps, LINE_RATE_BPS)),
                "adding per-app ingress class"@,
            ) + all_within(
                redirect_add(self.limiter.interface@, IFB_DEV@),
                "adding mirred ingress redirect"@,
            )
        } else {
            self.ingress_cleared()
        }
    }

    /// What the packet filter is to do with all applications.
    pub open spec fn filter_rules(&self) -> Seq<RuleModel> {
        self.in_order().map_values(|r: Rule| policed(r, self.shaper, self.shapes_down()))
    }

    /// Replace the rule set of the packet filter.
    pub open spec fn nft_plan(&self) -> Seq<StepModel> {
        if !self.limiter.enabled || self.apps.entries@.len() == 0 {
            seq![StepModel::DropRules]
        } else {
            seq![
                StepModel::LoadRules {
                    script: script(self.filter_rules()),
                    context: "applying nft per-app rules"@,
                },
            ]
        }
    }

    /// Bring the whole state onto the kernel.
    pub open spec fn full_plan(&self) -> Seq<StepModel> {
        self.egress_plan() + self.ingress_plan() + self.nft_plan()
    }

    /// Everything but the rules is the same, save the master switch and the next
    /// class.
    pub open spec fn same_host(&self, other: &Engine) -> bool {
        &&& self.limiter.host == other.limiter.host
        &&& self.limiter.interface == other.limiter.interface
        &&& self.shaper == other.shaper
        &&& self.ebpf_ingress == other.ebpf_ingress
    }

    /// An idle engine. No caps are set and nothing is to be changed.
    pub fn new(interface: String, shaper: bool, ebpf_ingress: bool) -> (r: Engine)
        ensures
            r.wf(),
            r.minors_apart(),
            r.minors_fresh(),
            r.limiter == (LimiterState { enabled: false, host: HostLimit::unlimited(), interface }),
            r.rules() == Map::<Seq<char>, Rule>::empty(),
            r.shaper == shaper,
            r.ebpf_ingress == ebpf_ingress,
            r.next_minor == FIRST_MINOR,
    {
        let r: Engine = Engine {
            limiter: LimiterState { enabled: false, host: HostLimit::default(), interface },
            apps: Table::new(),
            shaper,
            ebpf_ingress,
            next_minor: FIRST_MINOR,
        };
        assert(r.rules() =~= Map::<Seq<char>, Rule>::empty());
        r
    }

    /// Whether an application has the given class.
    fn class_used(&self, m: u16) -> (r: bool)
        requires
            self.wf(),
        ensures
            r == uses(self.rules(), m),
    {
        for i in 0..self.apps.entries.len()
            invariant
                self.wf(),
                forall|j: int| 0 <= j < i ==> (#[trigger] self.apps.entries@[j]).1.minor != m,
        {
            if self.apps.entries[i].1.minor == m {
                proof {
                    self.apps.lemma_entry(i as int);
                    let exe = self.apps.entries@[i as int].0@;
                    assert(self.rules().dom().contains(exe) && self.rules()[exe].minor == m);
                }
                return true;
            }
        }
        proof {
            if uses(self.rules(), m) {
                let exe = choose|exe: Seq<char>| #[trigger]
                    self.rules().dom().contains(exe) && self.rules()[exe].minor == m;
                let x = key_index(self.apps.entries@, exe);
                assert(has_key(self.apps.entries@, exe));
                self.apps.lemma_entry(x);
            }
        }
        false
    }

    /// Allocate a class that is not in use, as long as there is one.
    fn alloc_minor(&mut self) -> (r: u16)
        requires
            old(self).wf(),
        ensures
            r == old(self).next_class(),
            r >= FIRST_MINOR,
            *final(self) == (Engine { next_minor: minor_after(r), ..*old(self) }),
    {
        let mut m: u16 = self.next_minor;
        let mut tries: usize = CLASS_COUNT;
        while tries > 0 && self.class_used(m)
            invariant
                self.wf(),
                m >= FIRST_MINOR,
                *self == *old(self),
                self.next_class() == class_from(self.rules(), m, tries as nat),
            decreases tries,
        {
            m = following(m);
            tries = tries - 1;
        }
        self.next_minor = following(m);
        m
    }

    /// The caps of the host and the master switch.
    pub fn state(&self) -> (r: LimiterState)
        ensures
            r == self.limiter,
    {
        self.limiter.clone()
    }

    /// Whether the limiter is switched on.
    pub fn enabled(&self) -> (r: bool)
        ensures
            r == self.limiter.enabled,
    {
        self.limiter.enabled
    }

    /// Set the caps of the host and switch the limiter on.
    pub fn set_host_limit(&mut self, host: HostLimit) -> (r: Vec<Step>)
        requires
            old(self).wf(),
        ensures
            final(self).wf(),
            *final(self) == (Engine {
                limiter: LimiterState { enabled: true, host, ..old(self).limiter },
                ..*old(self)
            }),
            plan(r@) == final(self).full_plan(),
    {
        self.limiter.host = host;
        self.limiter.enabled = true;
        self.reconcile()
    }

    /// Flip the master switch; the caps stay as they are.
    pub fn set_enabled(&mut self, enabled: bool) -> (r: Vec<Step>)
        requires
            old(self).wf(),
        ensures
            final(self).wf(),
            *final(self) == old(self).switched(enabled),
            plan(r@) == final(self).full_plan(),
    {
        self.limiter.enabled = enabled;
        self.reconcile()
    }

    /// The engine with its master switch set.
    pub open spec fn switched(self, enabled: bool) -> Engine {
        Engine { limiter: LimiterState { enabled, ..self.limiter }, ..self }
    }

    fn insert_rule(&mut self, exe: &str, rule: AppRuleState)
        requires
            old(self).wf(),
            rule.minor >= FIRST_MINOR,
        ensures
            final(self).wf(),
            final(self).rules() == old(self).rules().insert(exe@, rule@),
            final(self).limiter == old(self).limiter,
            final(self).shaper == old(self).shaper,
            final(self).ebpf_ingress == old(self).ebpf_ingress,
            final(self).next_minor == old(self).next_minor,
            final(self).apps@ == old(self).apps@.insert(exe@, rule),
    {
        let ghost m = rule@;
        self.apps.insert(exe.to_string(), rule);
        proof {
            assert(self.rules() =~= old(self).rules().insert(exe@, m));
            assert forall|k: Seq<char>| #[trigger] self.apps@.dom().contains(k) implies
                self.apps@[k].minor >= FIRST_MINOR by {
                if k != exe@ {
                    assert(old(self).apps@.dom().contains(k));
                }
            }
        }
    }

    /// Create or update the rule of an application, given whether its group could
    /// be created. Where it could not, nothing changes. An existing rule keeps its
    /// block and its class, though the next class is set aside all the same. A rule
    /// switches the limiter on.
    pub fn set_app_limit(
        &mut self,
        exe: &str,
        down_bps: Option<u64>,
        up_bps: Option<u64>,
        scope: Scope,
        group: Result<(), String>,
    ) -> (r: Result<Vec<Step>, String>)
        requires
            old(self).wf(),
        ensures
            final(self).wf(),
            group is Err ==> *final(self) == *old(self) && r is Err && r->Err_0@ == creation_text(
                group->Err_0@,
            ),
            group is Ok ==> {
                let kept = old(self).rules().dom().contains(exe@);
                let before = old(self).rules()[exe@];
                &&& r is Ok
                &&& final(self).rules() == old(self).rules().insert(
                    exe@,
                    (Rule {
                        down_bps,
                        up_bps,
                        scope,
                        blocked: kept && before.blocked,
                        ..Rule::idle(
                            exe@,
                            if kept {
                                before.minor
                            } else {
                                old(self).next_class()
                            },
                        )
                    }),
                )
                &&& final(self).same_host(old(self))
                &&& final(self).limiter.enabled
                &&& final(self).next_minor == minor_after(old(self).next_class())
                &&& plan(r->Ok_0@) == final(self).full_plan().push(StepModel::PlaceProcesses)
            },
            final(self).classes_kept(old(self), exe@),
    {
        match group {
            Err(e) => {
                return Err(creation_failure(e.as_str()));
            },
            Ok(_) => {},
        }
        let fresh: u16 = self.alloc_minor();
        let (blocked, minor) = match self.apps.get(exe) {
            Some(r) => (r.blocked, r.minor),
            None => (false, fresh),
        };
        let mut rule: AppRuleState = idle_rule(exe, minor);
        rule.down_bps = down_bps;
        rule.up_bps = up_bps;
        rule.scope = scope;
        rule.blocked = blocked;
        self.insert_rule(exe, rule);
        self.limiter.enabled = true;
        proof {
            lemma_minors(old(self), self, exe@);
        }
        let mut steps: Vec<Step> = self.reconcile();
        add_step(&mut steps, Step::PlaceProcesses);
        Ok(steps)
    }

    /// Whether an application has a rule.
    pub fn is_tracked(&self, exe: &str) -> (r: bool)
        requires
            self.wf(),
        ensures
            r == self.rules().dom().contains(exe@),
    {
        self.apps.get(exe).is_some()
    }

    /// Begin tracking an application without limiting it, given whether its group
    /// could be created where it was not tracked yet.
    pub fn ensure_tracked(&mut self, exe: &str, group: Result<(), String>) -> (r: Result<
        Vec<Step>,
        String,
    >)
        requires
            old(self).wf(),
        ensures
            final(self).wf(),
            final(self).limiter == old(self).limiter,
            final(self).shaper == old(self).shaper,
            final(self).ebpf_ingress == old(self).ebpf_ingress,
            ({
                let kept = old(self).rules().dom().contains(exe@);
                &&& kept || group is Err ==> *final(self) == *old(self)
                &&& !kept && group is Err ==> r is Err && r->Err_0@ == creation_text(group->Err_0@)
                &&& kept || group is Ok ==> r is Ok && plan(r->Ok_0@) == seq![
                    StepModel::PlaceProcesses,
                ]
                &&& !kept && group is Ok ==> final(self).rules() == old(self).rules().insert(
                    exe@,
                    Rule::idle(exe@, old(self).next_class()),
                ) && final(self).next_minor == minor_after(old(self).next_class())
            }),
            final(self).classes_kept(old(self), exe@),
    {
        if self.apps.get(exe).is_none() {
            match group {
                Err(e) => {
                    return Err(creation_failure(e.as_str()));
                },
                Ok(_) => {},
            }
            let minor: u16 = self.alloc_minor();
            let rule: AppRuleState = idle_rule(exe, minor);
            self.insert_rule(exe, rule);
            proof {
                lemma_minors(old(self), self, exe@);
            }
        }
        let steps: Vec<Step> = vec![Step::PlaceProcesses];
        assert(plan(steps@) =~= seq![StepModel::PlaceProcesses]);
        Ok(steps)
    }

    /// Drop the rule of an application, and its group, if it has no effect.
    pub fn untrack_if_empty(&mut self, exe: &str) -> (r: Vec<Step>)
        requires
            old(self).wf(),
        ensures
            final(self).wf(),
            final(self).limiter == old(self).limiter,
            final(self).shaper == old(self).shaper,
            final(self).ebpf_ingress == old(self).ebpf_ingress,
            final(self).next_minor == old(self).next_minor,
            old(self).minors_apart() ==> final(self).minors_apart(),
            old(self).minors_fresh() ==> final(self).minors_fresh(),
            ({
                let rules = old(self).rules();
                if rules.dom().contains(exe@) && rules[exe@].is_idle() {
                    &&& final(self).rules() == rules.remove(exe@)
                    &&& plan(r@) == seq![StepModel::RemoveGroup { dir: rules[exe@].dir }]
                } else {
                    &&& *final(self) == *old(self)
                    &&& plan(r@) == Seq::<StepModel>::empty()
                }
            }),
    {
        let mut steps: Vec<Step> = Vec::new();
        assert(plan(steps@) =~= Seq::<StepModel>::empty());
        let idle: bool = match self.apps.get(exe) {
            Some(r) => r.is_empty(),
            None => false,
        };
        if idle {
            match self.remove_rule(exe) {
                Some(rule) => {
                    add_step(&mut steps, Step::RemoveGroup { dir: rule.dir });
                    assert(plan(steps@) =~= seq![
                        StepModel::RemoveGroup { dir: old(self).rules()[exe@].dir },
                    ]);
                },
                None => {},
            }
        }
        steps
    }

    fn remove_rule(&mut self, exe: &str) -> (r: Option<AppRuleState>)
        requires
            old(self).wf(),
        ensures
            final(self).wf(),
            final(self).rules() == old(self).rules().remove(exe@),
            final(self).apps@ == old(self).apps@.remove(exe@),
            final(self).limiter == old(self).limiter,
            final(self).shaper == old(self).shaper,
            final(self).ebpf_ingress == old(self).ebpf_ingress,
            final(self).next_minor == old(self).next_minor,
            old(self).minors_apart() ==> final(self).minors_apart(),
            old(self).minors_fresh() ==> final(self).minors_fresh(),
            match r {
                Some(rule) => old(self).rules().dom().contains(exe@) && rule@
                    == old(self).rules()[exe@],
                None => !old(self).rules().dom().contains(exe@),
            },
    {
        let r: Option<AppRuleState> = self.apps.remove(exe);
        proof {
            assert(self.rules() =~= old(self).rules().remove(exe@));
            assert forall|k: Seq<char>| #[trigger] self.apps@.dom().contains(k) implies
                old(self).apps@.dom().contains(k) && self.apps@[k] == old(self).apps@[k] by {}
        }
        r
    }

    /// Whether the group of an application has to be created before it is
    /// blocked.
    pub fn block_needs_group(&self, exe: &str, blocked: bool) -> (r: bool)
        requires
            self.wf(),
        ensures
            r == (blocked && !self.rules().dom().contains(exe@)),
    {
        blocked && self.apps.get(exe).is_none()
    }

    /// Block or unblock all traffic of an application, given whether its group
    /// could be created where that was needed. A block switches the limiter on and
    /// tracks the application. An application that is unblocked and has no caps is
    /// dropped with its group.
    pub fn set_app_blocked(&mut self, exe: &str, blocked: bool, group: Result<(), String>) -> (r:
        Result<Vec<Step>, String>)
        requires
            old(self).wf(),
        ensures
            final(self).wf(),
            final(self).same_host(old(self)),
            blocked_to(*old(self), exe@, blocked, group, *final(self), r),
            final(self).classes_kept(old(self), exe@),
    {
        let mut removed: Option<String> = None;
        match self.remove_rule(exe) {
            Some(mut rule) => {
                rule.blocked = blocked;
                if rule.is_empty() {
                    removed = Some(rule.dir);
                } else {
                    let ghost m = rule@;
                    self.insert_rule(exe, rule);
                    proof {
                        let was = old(self).rules();
                        assert(self.rules() =~= was.insert(exe@, m));
                        assert(self.apps@.dom() =~= old(self).apps@.dom().insert(exe@));
                        lemma_minors(old(self), self, exe@);
                    }
                }
            },
            None => {
                assert(self.rules() =~= old(self).rules());
                if !blocked {
                    let none: Vec<Step> = Vec::new();
                    assert(plan(none@) =~= Seq::<StepModel>::empty());
                    return Ok(none);
                }
                match group {
                    Err(e) => {
                        return Err(creation_failure(e.as_str()));
                    },
                    Ok(_) => {},
                }
                let minor: u16 = self.alloc_minor();
                let mut rule: AppRuleState = idle_rule(exe, minor);
                rule.blocked = true;
                self.insert_rule(exe, rule);
                proof {
                    assert(self.apps@.dom() =~= old(self).apps@.dom().insert(exe@));
                    lemma_minors(old(self), self, exe@);
                }
            },
        }
        if blocked {
            self.limiter.enabled = true;
        }
        let mut steps: Vec<Step> = self.reconcile_nft();
        match removed {
            Some(dir) => {
                add_step(&mut steps, Step::RemoveGroup { dir });
            },
            None => {
                add_step(&mut steps, Step::PlaceProcesses);
            },
        }
        Ok(steps)
    }

    /// Remove the rule of an application and its group.
    pub fn clear_app_limit(&mut self, exe: &str) -> (r: Vec<Step>)
        requires
            old(self).wf(),
        ensures
            final(self).wf(),
            final(self).rules() == old(self).rules().remove(exe@),
            final(self).limiter == old(self).limiter,
            final(self).shaper == old(self).shaper,
            final(self).ebpf_ingress == old(self).ebpf_ingress,
            final(self).next_minor == old(self).next_minor,
            old(self).minors_apart() ==> final(self).minors_apart(),
            old(self).minors_fresh() ==> final(self).minors_fresh(),
            plan(r@) == final(self).full_plan() + if old(self).rules().dom().contains(exe@) {
                seq![StepModel::RemoveGroup { dir: old(self).rules()[exe@].dir }]
            } else {
                Seq::empty()
            },
    {
        let removed: Option<AppRuleState> = self.remove_rule(exe);
        let mut steps: Vec<Step> = self.reconcile();
        match removed {
            Some(rule) => {
                add_step(&mut steps, Step::RemoveGroup { dir: rule.dir });
                assert(plan(steps@) =~= self.full_plan() + seq![
                    StepModel::RemoveGroup { dir: old(self).rules()[exe@].dir },
                ]);
            },
            None => {
                assert(plan(steps@) =~= self.full_plan() + Seq::empty());
            },
        }
        steps
    }

    /// The groups of the applications, in the order of the entries.
    pub fn groups(&self) -> (r: Vec<String>)
        ensures
            r@.len() == self.apps.entries@.len(),
            forall|i: int|
                0 <= i < r@.len() ==> (#[trigger] r@[i])@ == self.apps.entries@[i].1@.dir,
    {
        let mut r: Vec<String> = Vec::new();
        for i in 0..self.apps.entries.len()
            invariant
                r@.len() == i,
                forall|j: int| 0 <= j < i ==> (#[trigger] r@[j])@ == self.apps.entries@[j].1@.dir,
        {
            r.push(self.apps.entries[i].1.dir.clone());
        }
        r
    }

    /// List the rules by name, given the number of processes in each of the
    /// groups.
    pub fn list_app_limits(&self, pids: &Vec<u32>) -> (r: Vec<AppLimit>)
        requires
            self.wf(),
            pids@.len() == self.apps.entries@.len(),
        ensures
            lists_limits(r@, self.apps.entries@, pids@),
    {
        let mut items: Vec<AppLimit> = Vec::new();
        let mut keys: Vec<Name> = Vec::new();
        let ghost entries = self.apps.entries@;
        for i in 0..self.apps.entries.len()
            invariant
                entries == self.apps.entries@,
                pids@.len() == entries.len(),
                items@.len() == i,
                keys@.len() == i,
                forall|j: int|
                    #![trigger items@[j]]
                    0 <= j < i ==> shows(items@[j], entries[j].0@, entries[j].1@, pids@[j]),
                forall|j: int| 0 <= j < i ==> (#[trigger] keys@[j]).0@ == items@[j].name@,
        {
            let rule: &AppRuleState = &self.apps.entries[i].1;
            keys.push(Name(chars(rule.name.as_str())));
            items.push(
                AppLimit {
                    exe: self.apps.entries[i].0.clone(),
                    name: rule.name.clone(),
                    down_bps: rule.down_bps,
                    up_bps: rule.up_bps,
                    scope: rule.scope,
                    pids: pids[i],
                },
            );
        }
        let ghost before = items@;
        let out: Vec<AppLimit> = sorted(items, &keys);
        proof {
            let p = choose|p: Seq<int>| is_sorting(p, before, keys@, out@);
            assert forall|i: int|
                #![trigger out@[i]]
                0 <= i < out@.len() implies shows(
                out@[i],
                entries[p[i]].0@,
                entries[p[i]].1@,
                pids@[p[i]],
            ) by {
                assert(out@[i] == before[p[i]]);
            }
            assert forall|i: int, j: int| 0 <= i < j < out@.len() implies name_le(
                out@[i].name@,
                out@[j].name@,
            ) by {
                assert(keys@[p[i]].ranks(&keys@[p[j]]));
                assert(out@[i] == before[p[i]] && out@[j] == before[p[j]]);
            }
            assert(lists_in_order(out@, entries, pids@, p));
        }
        out
    }

    /// Remove everything from the kernel, and forget the rules.
    pub fn shutdown(&mut self) -> (r: Vec<Step>)
        requires
            old(self).wf(),
        ensures
            final(self).wf(),
            final(self).rules() == Map::<Seq<char>, Rule>::empty(),
            final(self).limiter == old(self).limiter,
            final(self).shaper == old(self).shaper,
            final(self).ebpf_ingress == old(self).ebpf_ingress,
            final(self).next_minor == old(self).next_minor,
            plan(r@) == old(self).shutdown_plan(),
    {
        let iface: &str = self.limiter.interface.as_str();
        let mut steps: Vec<Step> = clear_egress(iface);
        extend(&mut steps, del_ingress_redirect(iface));
        extend(&mut steps, clear_ingress(iface, IFB_DEV));
        extend(&mut steps, ifb_clear(IFB_DEV));
        extend(&mut steps, clear_clsact(iface));
        add_step(&mut steps, Step::DropRules);
        let ghost head = plan(steps@);
        let ghost removals = group_removals(self.in_order());
        assert(plan(steps@) =~= head + removals.take(0));
        for i in 0..self.apps.entries.len()
            invariant
                removals == group_removals(self.in_order()),
                plan(steps@) == head + removals.take(i as int),
        {
            let dir: String = self.apps.entries[i].1.dir.clone();
            add_step(&mut steps, Step::RemoveGroup { dir });
            assert(plan(steps@) =~= head + removals.take(i + 1));
        }
        assert(removals.take(self.apps.entries@.len() as int) =~= removals);
        add_step(&mut steps, Step::RemoveBase);
        assert(plan(steps@) =~= old(self).shutdown_plan());
        self.apps = Table::new();
        assert(self.rules() =~= Map::<Seq<char>, Rule>::empty());
        steps
    }

    /// What [`Engine::shutdown`] orders.
    pub open spec fn shutdown_plan(&self) -> Seq<StepModel> {
        let iface = self.limiter.interface@;
        seq![root_del(iface)] + redirect_del(iface) + seq![
            ingress_del(iface),
            root_del(IFB_DEV@),
            ifb_del(IFB_DEV@),
            root_del(IFB_DEV@),
            ifb_del(IFB_DEV@),
        ] + clsact_clear(iface) + seq![StepModel::DropRules] + group_removals(self.in_order())
            + seq![StepModel::RemoveBase]
    }

    /// What is to be removed when the last handle goes away without a shutdown.
    pub fn abandon(&self) -> (r: Vec<Step>)
        ensures
            plan(r@) == if self.limiter.enabled {
                seq![
                    root_del(self.limiter.interface@),
                    ingress_del(self.limiter.interface@),
                    root_del(IFB_DEV@),
                    ifb_del(IFB_DEV@),
                    StepModel::DropRules,
                ]
            } else {
                Seq::empty()
            },
    {
        let mut steps: Vec<Step> = Vec::new();
        if self.limiter.enabled {
            let iface: &str = self.limiter.interface.as_str();
            extend(&mut steps, clear_egress(iface));
            extend(&mut steps, clear_ingress(iface, IFB_DEV));
            add_step(&mut steps, Step::DropRules);
            assert(plan(steps@) =~= seq![
                root_del(self.limiter.interface@),
                ingress_del(self.limiter.interface@),
                root_del(IFB_DEV@),
                ifb_del(IFB_DEV@),
                StepModel::DropRules,
            ]);
        } else {
            assert(plan(steps@) =~= Seq::<StepModel>::empty());
        }
        steps
    }

    /// The group that a process of the given executable belongs to, if any.
    pub fn group_of(&self, exe: &str) -> (r: Option<&String>)
        requires
            self.wf(),
        ensures
            match r {
                Some(dir) => exe@.len() > 0 && self.rules().dom().contains(exe@) && dir@
                    == self.rules()[exe@].dir,
                None => exe@.len() == 0 || !self.rules().dom().contains(exe@),
            },
    {
        if exe.is_empty() {
            return None;
        }
        match self.apps.get(exe) {
            Some(r) => Some(&r.dir),
            None => None,
        }
    }

    // ---- Plans ---------------------------------------------------------------

    fn reconcile(&self) -> (r: Vec<Step>)
        ensures
            plan(r@) == self.full_plan(),
    {
        let mut steps: Vec<Step> = self.reconcile_egress();
        extend(&mut steps, self.reconcile_ingress());
        extend(&mut steps, self.reconcile_nft());
        steps
    }

    fn collect_up(&self) -> (r: Vec<(u16, u64)>)
        ensures
            r@ == up_classes(self.in_order()),
    {
        let ghost rules = self.in_order();
        let mut r: Vec<(u16, u64)> = Vec::new();
        assert(rules.take(0) =~= Seq::<Rule>::empty());
        for i in 0..self.apps.entries.len()
            invariant
                rules == self.in_order(),
                r@ == up_classes(rules.take(i as int)),
        {
            assert(rules.take(i + 1).drop_last() =~= rules.take(i as int));
            let rule: &AppRuleState = &self.apps.entries[i].1;
            assert(rules.take(i + 1).last() == rule@);
            match rule.up_bps {
                Some(bps) => {
                    if rule.scope == Scope::Both {
                        r.push((rule.minor, bps));
                    }
                },
                None => {},
            }
        }
        assert(rules.take(self.apps.entries@.len() as int) =~= rules);
        r
    }

    fn collect_down(&self) -> (r: Vec<(u16, u64)>)
        ensures
            r@ == down_classes(self.in_order()),
    {
        let ghost rules = self.in_order();
        let mut r: Vec<(u16, u64)> = Vec::new();
        assert(rules.take(0) =~= Seq::<Rule>::empty());
        for i in 0..self.apps.entries.len()
            invariant
                rules == self.in_order(),
                r@ == down_classes(rules.take(i as int)),
        {
            assert(rules.take(i + 1).drop_last() =~= rules.take(i as int));
            let rule: &AppRuleState = &self.apps.entries[i].1;
            assert(rules.take(i + 1).last() == rule@);
            match rule.down_bps {
                Some(bps) => {
                    if rule.scope == Scope::Both {
                        r.push((rule.minor, bps));
                    }
                },
                None => {},
            }
        }
        assert(rules.take(self.apps.entries@.len() as int) =~= rules);
        r
    }

    fn map_classes(&self) -> (r: Vec<Step>)
        ensures
            plan(r@) == class_maps(self.in_order()),
    {
        let ghost rules = self.in_order();
        let mut r: Vec<Step> = Vec::new();
        assert(rules.take(0) =~= Seq::<Rule>::empty());
        assert(plan(r@) =~= Seq::empty());
        for i in 0..self.apps.entries.len()
            invariant
                rules == self.in_order(),
                plan(r@) == class_maps(rules.take(i as int)),
        {
            assert(rules.take(i + 1).drop_last() =~= rules.take(i as int));
            let rule: &AppRuleState = &self.apps.entries[i].1;
            assert(rules.take(i + 1).last() == rule@);
            if rule.scope == Scope::Both && (rule.up_bps.is_some() || rule.down_bps.is_some()) {
                let s: Step = Step::MapClass { dir: rule.dir.clone(), classid: classid(rule.minor) };
                add_step(&mut r, s);
            }
        }
        assert(rules.take(self.apps.entries@.len() as int) =~= rules);
        r
    }

    /// Rebuild outbound shaping: the tree of the host, with classes for the
    /// uploads of applications where the classifier can steer them.
    pub fn reconcile_egress(&self) -> (r: Vec<Step>)
        ensures
            plan(r@) == self.egress_plan(),
    {
        let iface: &str = self.limiter.interface.as_str();
        let mut steps: Vec<Step> = clear_egress(iface);
        if self.shaper {
            add_step(&mut steps, Step::ClearClasses);
        }
        assert(plan(steps@) =~= seq![root_del(iface@)] + (if self.shaper {
            seq![StepModel::ClearClasses]
        } else {
            Seq::empty()
        }));
        if !self.limiter.enabled {
            return steps;
        }
        let host: HostLimit = self.limiter.host;
        let classes: Vec<(u16, u64)> = if self.shaper {
            self.collect_up()
        } else {
            Vec::new()
        };
        assert(!self.shaper ==> classes@ =~= Seq::empty());
        let built: Vec<Step> = build_egress_tree(
            iface,
            host.up_bps,
            host.lan.up_bps,
            host.internet.up_bps,
            &classes,
        );
        extend(&mut steps, in_context(built, "building egress HTB tree"));
        if self.shaper {
            extend(&mut steps, self.map_classes());
        }
        assert(plan(steps@) =~= self.egress_plan());
        steps
    }

    /// Rebuild inbound shaping: the tree of the host on the intermediate device,
    /// with classes for the downloads of applications where the classifier steers
    /// inbound traffic.
    pub fn reconcile_ingress(&self) -> (r: Vec<Step>)
        ensures
            plan(r@) == self.ingress_plan(),
    {
        let iface: &str = self.limiter.interface.as_str();
        let host: HostLimit = self.limiter.host;
        let mut steps: Vec<Step> = del_ingress_redirect(iface);
        extend(&mut steps, ifb_clear(IFB_DEV));
        assert(plan(steps@) == self.ingress_cleared());
        if !(self.shaper && self.ebpf_ingress) {
            let any_host_down: bool = host.down_bps.is_some() || host.lan.down_bps.is_some()
                || host.internet.down_bps.is_some();
            if self.limiter.enabled && any_host_down {
                let none: Vec<(u16, u64)> = Vec::new();
                let built: Vec<Step> = build_ingress_scoped(
                    iface,
                    IFB_DEV,
                    host.down_bps,
                    host.lan.down_bps,
                    host.internet.down_bps,
                    &none,
                );
                extend(&mut steps, in_context(built, "building scoped host download shaping"));
            }
            return steps;
        }
        let classes: Vec<(u16, u64)> = self.collect_down();
        if self.limiter.enabled && (host.lan.down_bps.is_some()
            || host.internet.down_bps.is_some()) {
            let built: Vec<Step> = build_scoped_tree(
                IFB_DEV,
                host.down_bps,
                host.lan.down_bps,
                host.internet.down_bps,
                &classes,
            );
            extend(&mut steps, in_context(built, "building IFB HTB root"));
            let redirect: Vec<Step> = add_ingress_redirect(iface, IFB_DEV);
            extend(&mut steps, in_context(redirect, "adding mirred ingress redirect"));
            return steps;
        }
        if !(self.limiter.enabled && (host.down_bps.is_some() || classes.len() > 0)) {
            return steps;
        }
        let root: Vec<Step> = ifb_root(IFB_DEV, host.down_bps);
        extend(&mut steps, in_context(root, "building IFB HTB root"));
        let ceil: u64 = match host.down_bps {
            Some(c) => c,
            None => LINE_RATE_BPS,
        };
        let added: Vec<Step> = add_inbound(&classes, ceil);
        extend(&mut steps, in_context(added, "adding per-app ingress class"));
        let redirect: Vec<Step> = add_ingress_redirect(iface, IFB_DEV);
        extend(&mut steps, in_context(redirect, "adding mirred ingress redirect"));
        steps
    }

    /// Replace the rule set of the packet filter. A direction that is shaped is
    /// left out of it.
    pub fn reconcile_nft(&self) -> (r: Vec<Step>)
        ensures
            plan(r@) == self.nft_plan(),
    {
        let shapes_down: bool = self.shaper && self.ebpf_ingress;
        let mut steps: Vec<Step> = Vec::new();
        if !self.limiter.enabled || self.apps.entries.len() == 0 {
            steps.push(Step::DropRules);
            assert(plan(steps@) =~= seq![StepModel::DropRules]);
            return steps;
        }
        let mut rules: Vec<AppRule> = Vec::new();
        let ghost wanted = self.filter_rules();
        for i in 0..self.apps.entries.len()
            invariant
                wanted == self.filter_rules(),
                shapes_down == self.shapes_down(),
                rules@.len() == i,
                forall|j: int| 0 <= j < i ==> (#[trigger] rules@[j])@ == wanted[j],
        {
            let rule: &AppRuleState = &self.apps.entries[i].1;
            rules.push(
                AppRule {
                    cgroup_rel: app_rel(rule.dir.as_str()),
                    down_bps: if shapes_down && rule.scope == Scope::Both {
                        None
                    } else {
                        rule.down_bps
                    },
                    up_bps: if self.shaper && rule.scope == Scope::Both {
                        None
                    } else {
                        rule.up_bps
                    },
                    scope: rule.scope,
                    blocked: rule.blocked,
                },
            );
        }
        assert(rule_models(rules@) =~= wanted);
        let s: Step = Step::LoadRules {
            script: apply(&rules),
            context: "applying nft per-app rules".to_string(),
        };
        steps.push(s);
        assert(plan(steps@) =~= self.nft_plan());
        steps
    }
}

fn add_inbound(classes: &Vec<(u16, u64)>, ceil: u64) -> (r: Vec<Step>)
    ensures
        plan(r@) == inbound_classes(classes@, ceil),
{
    let ghost wanted = inbound_classes(classes@, ceil);
    let mut r: Vec<Step> = Vec::new();
    assert(plan(r@) =~= wanted.take(0));
    for i in 0..classes.len()
        invariant
            wanted == inbound_classes(classes@, ceil),
            plan(r@) == wanted.take(i as int),
    {
        let (minor, down) = classes[i];
        let c: u64 = if ceil >= down {
            ceil
        } else {
            down
        };
        extend(&mut r, ifb_app_class(IFB_DEV, minor, down, c));
        assert(plan(r@) =~= wanted.take(i + 1));
    }
    assert(wanted.take(classes@.len() as int) =~= wanted);
    r
}

/// What is said where the group of an application could not be created.
pub open spec fn creation_text(e: Seq<char>) -> Seq<char> {
    "creating app cgroup: "@ + e
}

fn creation_failure(e: &str) -> (r: String)
    ensures
        r@ == creation_text(e@),
{
    let mut r: String = "creating app cgroup: ".to_string();
    r.append(e);
    r
}

/// What [`Engine::set_app_blocked`] does.
pub open spec fn blocked_to(
    before: Engine,
    exe: Seq<char>,
    blocked: bool,
    group: Result<(), String>,
    after: Engine,
    r: Result<Vec<Step>, String>,
) -> bool {
    let rules = before.rules();
    let now_enabled = blocked || before.limiter.enabled;
    if rules.dom().contains(exe) {
        let rule = Rule { blocked, ..rules[exe] };
        &&& r is Ok
        &&& after.next_minor == before.next_minor
        &&& after.limiter.enabled == now_enabled
        &&& if rule.is_idle() {
            &&& after.rules() == rules.remove(exe)
            &&& plan(r->Ok_0@) == after.nft_plan().push(StepModel::RemoveGroup { dir: rule.dir })
        } else {
            &&& after.rules() == rules.insert(exe, rule)
            &&& plan(r->Ok_0@) == after.nft_plan().push(StepModel::PlaceProcesses)
        }
    } else if !blocked {
        &&& r is Ok
        &&& plan(r->Ok_0@) == Seq::<StepModel>::empty()
        &&& after.rules() == rules
        &&& after.limiter == before.limiter
        &&& after.next_minor == before.next_minor
    } else if group is Err {
        &&& r is Err
        &&& r->Err_0@ == creation_text(group->Err_0@)
        &&& after.rules() == rules
        &&& after.limiter == before.limiter
        &&& after.next_minor == before.next_minor
    } else {
        &&& r is Ok
        &&& after.rules() == rules.insert(
            exe,
            (Rule { blocked: true, ..Rule::idle(exe, before.next_class()) }),
        )
        &&& after.limiter.enabled
        &&& after.next_minor == minor_after(before.next_class())
        &&& plan(r->Ok_0@) == after.nft_plan().push(StepModel::PlaceProcesses)
    }
}

/// The class `k` places after `m`, counted round.
spec fn class_after(m: u16, k: int) -> int {
    FIRST_MINOR + (m - FIRST_MINOR + k) % (CLASS_COUNT as int)
}

/// Where no free class was found, those that were tried are all in use.
proof fn lemma_all_tried(rules: Map<Seq<char>, Rule>, m: u16, tries: nat, k: int)
    requires
        m >= FIRST_MINOR,
        tries <= CLASS_COUNT,
        uses(rules, class_from(rules, m, tries)),
        0 <= k < tries,
    ensures
        uses(rules, class_after(m, k) as u16),
    decreases tries,
{
    assert(uses(rules, m));
    if k == 0 {
        assert(class_after(m, 0) == m);
    } else {
        let next = minor_after(m);
        lemma_all_tried(rules, next, (tries - 1) as nat, k - 1);
        assert(class_after(next, k - 1) == class_after(m, k)) by {
            if m == u16::MAX {
                assert(m - FIRST_MINOR + k == (k - 1) + CLASS_COUNT);
            }
        }
    }
}

/// As long as not all classes are in use, the next application gets one that is
/// not.
proof fn lemma_free_class(e: &Engine)
    requires
        e.wf(),
        e.apps.entries@.len() < CLASS_COUNT,
    ensures
        !uses(e.rules(), e.next_class()),
{
    let rules = e.rules();
    let m = e.next_minor;
    if uses(rules, e.next_class()) {
        let used = e.apps.entries@.map_values(|x: (String, AppRuleState)| x.1.minor as int);
        let all = vstd::set_lib::set_int_range(FIRST_MINOR as int, 0x1_0000);
        assert forall|c: int| all.contains(c) implies used.to_set().contains(c) by {
            let k = if c >= m {
                c - m
            } else {
                c - m + CLASS_COUNT
            };
            lemma_all_tried(rules, m, CLASS_COUNT as nat, k);
            assert(class_after(m, k) == c);
            let exe = choose|exe: Seq<char>| #[trigger]
                rules.dom().contains(exe) && rules[exe].minor == c as u16;
            let x = key_index(e.apps.entries@, exe);
            assert(has_key(e.apps.entries@, exe));
            e.apps.lemma_entry(x);
            assert(used[x] == c);
        }
        vstd::set_lib::lemma_int_range(FIRST_MINOR as int, 0x1_0000);
        vstd::seq_lib::seq_to_set_is_finite(used);
        vstd::set_lib::lemma_len_subset(all, used.to_set());
        used.lemma_cardinality_of_set();
    }
}

/// As long as not all classes are in use, a new application gets a class that no other
/// has and that the host does not use: the next one in turn, where that is free.
pub proof fn law_new_class_is_free(e: Engine, exe: Seq<char>)
    requires
        e.wf(),
        e.apps.entries@.len() < 0xfff0,
    ensures
        0x10 <= e.next_class(),
        e.rules().dom().contains(exe) ==> e.rules()[exe].minor != e.next_class(),
        (forall|other: Seq<char>| #[trigger]
            e.rules().dom().contains(other) ==> e.rules()[other].minor != e.next_minor)
            ==> e.next_class() == e.next_minor,
        minor_after(0xffff) == 0x10,
        forall|m: u16| m < 0xffff ==> #[trigger] minor_after(m) == m + 1,
{
    lemma_free_class(&e);
    lemma_class_from(e.rules(), e.next_minor, CLASS_COUNT as nat);
}

proof fn lemma_class_from(rules: Map<Seq<char>, Rule>, m: u16, tries: nat)
    requires
        m >= FIRST_MINOR,
    ensures
        class_from(rules, m, tries) >= FIRST_MINOR,
    decreases tries,
{
    if tries > 0 && uses(rules, m) {
        lemma_class_from(rules, minor_after(m), (tries - 1) as nat);
    }
}

/// Entering a rule with its old class, or with the next one that is not in use,
/// keeps the classes apart.
proof fn lemma_minors(a: &Engine, b: &Engine, exe: Seq<char>)
    requires
        a.wf(),
        b.apps@.dom() == a.apps@.dom().insert(exe),
        forall|k: Seq<char>|
            k != exe && a.apps@.dom().contains(k) ==> (#[trigger] b.apps@[k]) == a.apps@[k],
        b.apps@[exe].minor == if a.apps@.dom().contains(exe) {
            a.apps@[exe].minor
        } else {
            a.next_class()
        },
        b.next_minor == a.next_minor && a.apps@.dom().contains(exe) || b.next_minor == minor_after(
            a.next_class(),
        ),
    ensures
        b.classes_kept(a, exe),
{
    if a.minors_fresh() && a.next_minor < u16::MAX {
        if uses(a.rules(), a.next_minor) {
            let k = choose|k: Seq<char>| #[trigger]
                a.rules().dom().contains(k) && a.rules()[k].minor == a.next_minor;
            assert(a.apps@.dom().contains(k));
        }
        assert(a.next_class() == a.next_minor);
        assert forall|k: Seq<char>| #[trigger] b.apps@.dom().contains(k) implies b.apps@[k].minor
            < b.next_minor by {
            if k != exe {
                assert(a.apps@.dom().contains(k));
            }
        }
    }
    if a.minors_apart() && (a.apps@.dom().contains(exe) || a.apps.entries@.len() < CLASS_COUNT) {
        if !a.apps@.dom().contains(exe) {
            lemma_free_class(a);
        }
        assert forall|x: Seq<char>, y: Seq<char>|
            #![trigger b.apps@[x], b.apps@[y]]
            b.apps@.dom().contains(x) && b.apps@.dom().contains(y) && x != y implies b.apps@[x].minor
            != b.apps@[y].minor by {
            if x != exe {
                assert(a.rules().dom().contains(x));
                assert(b.apps@[x] == a.apps@[x]);
            }
            if y != exe {
                assert(a.rules().dom().contains(y));
                assert(b.apps@[y] == a.apps@[y]);
            }
            if a.apps@.dom().contains(exe) {
                let _ = a.apps@[exe];
                let _ = a.apps@[x];
                let _ = a.apps@[y];
            }
        }
    }
}

} // verus!
