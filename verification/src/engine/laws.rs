//! What holds of the limiter as a whole.

use vstd::prelude::*;

use crate::addr::{Cidr, Ipv4Addr};
use crate::engine::limiter::{
    blocked_to, class_maps, down_classes, lists_in_order, lists_limits, policed, up_classes,
    Engine, Rule, FIRST_MINOR, IFB_DEV,
};
use crate::engine::nft::V4_PRIVATE;
use crate::engine::step::{all_within, Step, StepModel};
use crate::engine::tc::{
    app_classes, app_classid, class_add, lan_filters, or_else, root_del, root_qdisc, v4_lan,
    LINE_RATE_BPS,
};
use crate::monitor::lan::fixed;
use crate::number::{decimal, lemma_numeral_value, numeral};
use crate::proto::{AppLimit, AppStat, LimiterState, Scope};
use crate::quota::{
    block_after, exceeded_names, law_blocks_follow_new_quota, law_blocks_follow_quotas,
    law_exceeded_are_named, orders_for, ticked_to, QuotaEntry, QuotaManager,
};
use crate::table::{has_key, key_index};

verus! {

/// While the master switch is off, nothing is shaped or policed: the plan only
/// takes away what is there, whatever caps are set.
pub proof fn law_off_means_off(e: Engine)
    requires
        !e.limiter.enabled,
    ensures
        forall|i: int|
            0 <= i < e.full_plan().len() ==> (#[trigger] e.full_plan()[i]).only_removes(),
{
}

/// The master switch keeps the caps: switching off and on again leads back to the
/// same state, and so to the same plan.
pub proof fn law_switch_keeps_caps(e: Engine)
    requires
        e.limiter.enabled,
    ensures
        e.switched(false).switched(true) == e,
        e.switched(false).switched(true).full_plan() == e.full_plan(),
        e.switched(false).limiter.host == e.limiter.host,
        e.switched(false).rules() == e.rules(),
{
}

/// Caps of the host are independent of the rules of applications: where no
/// classifier steers applications into the trees, the trees do not depend on the
/// rules at all.
pub proof fn law_host_caps_ignore_rules(a: Engine, b: Engine)
    requires
        a.limiter == b.limiter,
        !a.shaper,
        !b.shaper,
    ensures
        a.egress_plan() == b.egress_plan(),
        a.ingress_plan() == b.ingress_plan(),
{
}

/// The root and the classes of the host in the outbound tree.
pub open spec fn host_classes(l: LimiterState) -> Seq<StepModel> {
    let dev = l.interface@;
    let all = or_else(l.host.up_bps, LINE_RATE_BPS);
    all_within(
        seq![
            root_qdisc(dev, "3"@),
            class_add(dev, "1:"@, "1:1"@, all, all),
            class_add(dev, "1:1"@, "1:2"@, or_else(l.host.lan.up_bps, all), all),
            class_add(dev, "1:1"@, "1:3"@, or_else(l.host.internet.up_bps, all), all),
        ],
        "building egress HTB tree"@,
    )
}

/// The filters of the host in the outbound tree.
pub open spec fn host_filters(l: LimiterState) -> Seq<StepModel> {
    all_within(lan_filters(l.interface@, "dst"@), "building egress HTB tree"@)
}

/// Where the classifier steers applications, the root, the classes of the host and
/// the filters of the outbound tree still depend on the state of the limiter alone:
/// rules only add their own classes between them, and steer to these after them.
pub proof fn law_host_tree_ignores_rules(e: Engine)
    requires
        e.limiter.enabled,
        e.shaper,
    ensures
        e.egress_plan() == seq![root_del(e.limiter.interface@), StepModel::ClearClasses]
            + host_classes(e.limiter) + all_within(
            app_classes(
                e.limiter.interface@,
                or_else(e.limiter.host.up_bps, LINE_RATE_BPS),
                up_classes(e.in_order()),
            ),
            "building egress HTB tree"@,
        ) + host_filters(e.limiter) + class_maps(e.in_order()),
{
    let l = e.limiter;
    let all = or_else(l.host.up_bps, LINE_RATE_BPS);
    let classes = app_classes(l.interface@, all, up_classes(e.in_order()));
    assert(e.egress_plan() =~= seq![root_del(l.interface@), StepModel::ClearClasses]
        + host_classes(l) + all_within(classes, "building egress HTB tree"@) + host_filters(l)
        + class_maps(e.in_order()));
}

/// A cap on a zone is shaped whatever the classifier does: the zone gets a class with
/// its cap as the rate, in the outbound tree for uploads and in the inbound tree for
/// downloads.
pub proof fn law_zone_caps_are_shaped(e: Engine)
    requires
        e.limiter.enabled,
    ensures
        e.limiter.host.lan.up_bps is Some ==> exists|ceil: u64|
            e.egress_plan().contains(
                (#[trigger] class_add(
                    e.limiter.interface@,
                    "1:1"@,
                    "1:2"@,
                    e.limiter.host.lan.up_bps->0,
                    ceil,
                )).within("building egress HTB tree"@),
            ),
        e.limiter.host.internet.up_bps is Some ==> exists|ceil: u64|
            e.egress_plan().contains(
                (#[trigger] class_add(
                    e.limiter.interface@,
                    "1:1"@,
                    "1:3"@,
                    e.limiter.host.internet.up_bps->0,
                    ceil,
                )).within("building egress HTB tree"@),
            ),
        e.limiter.host.lan.down_bps is Some ==> exists|ceil: u64, context: Seq<char>|
            e.ingress_plan().contains(
                #[trigger] class_add(
                    IFB_DEV@,
                    "1:1"@,
                    "1:2"@,
                    e.limiter.host.lan.down_bps->0,
                    ceil,
                ).within(context),
            ),
        e.limiter.host.internet.down_bps is Some ==> exists|ceil: u64, context: Seq<char>|
            e.ingress_plan().contains(
                #[trigger] class_add(
                    IFB_DEV@,
                    "1:1"@,
                    "1:3"@,
                    e.limiter.host.internet.down_bps->0,
                    ceil,
                ).within(context),
            ),
{
    let host = e.limiter.host;
    let cleared = if e.shaper {
        2int
    } else {
        1int
    };
    if host.lan.up_bps is Some {
        let all = or_else(host.up_bps, LINE_RATE_BPS);
        let step = class_add(e.limiter.interface@, "1:1"@, "1:2"@, host.lan.up_bps->0, all);
        assert(e.egress_plan()[cleared + 2] == step.within("building egress HTB tree"@));
    }
    if host.internet.up_bps is Some {
        let all = or_else(host.up_bps, LINE_RATE_BPS);
        let step = class_add(e.limiter.interface@, "1:1"@, "1:3"@, host.internet.up_bps->0, all);
        assert(e.egress_plan()[cleared + 3] == step.within("building egress HTB tree"@));
    }
    let all = or_else(host.down_bps, LINE_RATE_BPS);
    let context = if e.shapes_down() {
        "building IFB HTB root"@
    } else {
        "building scoped host download shaping"@
    };
    if host.lan.down_bps is Some {
        let step = class_add(IFB_DEV@, "1:1"@, "1:2"@, host.lan.down_bps->0, all);
        assert(e.ingress_plan()[7] == step.within(context));
    }
    if host.internet.down_bps is Some {
        let step = class_add(IFB_DEV@, "1:1"@, "1:3"@, host.internet.down_bps->0, all);
        assert(e.ingress_plan()[8] == step.within(context));
    }
}

/// Shutting down only takes away.
pub proof fn law_shutdown_only_removes(e: Engine)
    ensures
        forall|i: int|
            0 <= i < e.shutdown_plan().len() ==> (#[trigger] e.shutdown_plan()[i]).only_removes(),
{
}

pub(crate) proof fn lemma_up_listed(rules: Seq<Rule>, i: int)
    requires
        0 <= i < rules.len(),
        rules[i].up_bps is Some,
        rules[i].scope == Scope::Both,
    ensures
        up_classes(rules).contains((rules[i].minor, rules[i].up_bps->0)),
    decreases rules.len(),
{
    let all = up_classes(rules);
    let x = (rules[i].minor, rules[i].up_bps->0);
    if i == rules.len() - 1 {
        assert(all.last() == x);
    } else {
        let rest = rules.drop_last();
        lemma_up_listed(rest, i);
        let k = choose|k: int| 0 <= k < up_classes(rest).len() && up_classes(rest)[k] == x;
        assert(all[k] == x);
    }
}

pub(crate) proof fn lemma_down_listed(rules: Seq<Rule>, i: int)
    requires
        0 <= i < rules.len(),
        rules[i].down_bps is Some,
        rules[i].scope == Scope::Both,
    ensures
        down_classes(rules).contains((rules[i].minor, rules[i].down_bps->0)),
    decreases rules.len(),
{
    let all = down_classes(rules);
    let x = (rules[i].minor, rules[i].down_bps->0);
    if i == rules.len() - 1 {
        assert(all.last() == x);
    } else {
        let rest = rules.drop_last();
        lemma_down_listed(rest, i);
        let k = choose|k: int| 0 <= k < down_classes(rest).len() && down_classes(rest)[k] == x;
        assert(all[k] == x);
    }
}

proof fn lemma_only_unscoped(rules: Seq<Rule>, k: int)
    ensures
        0 <= k < up_classes(rules).len() ==> exists|i: int|
            0 <= i < rules.len() && (#[trigger] rules[i]).scope == Scope::Both && rules[i].up_bps
                == Some(up_classes(rules)[k].1) && rules[i].minor == up_classes(rules)[k].0,
        0 <= k < down_classes(rules).len() ==> exists|i: int|
            0 <= i < rules.len() && (#[trigger] rules[i]).scope == Scope::Both && rules[i].down_bps
                == Some(down_classes(rules)[k].1) && rules[i].minor == down_classes(rules)[k].0,
    decreases rules.len(),
{
    if rules.len() > 0 {
        let rest = rules.drop_last();
        let n = rules.len() - 1;
        lemma_only_unscoped(rest, k);
        if 0 <= k < up_classes(rest).len() {
            let i = choose|i: int|
                0 <= i < rest.len() && (#[trigger] rest[i]).scope == Scope::Both && rest[i].up_bps
                    == Some(up_classes(rest)[k].1) && rest[i].minor == up_classes(rest)[k].0;
            assert(rules[i] == rest[i]);
        } else if 0 <= k < up_classes(rules).len() {
            assert(rules[n].scope == Scope::Both);
        }
        if 0 <= k < down_classes(rest).len() {
            let i = choose|i: int|
                0 <= i < rest.len() && (#[trigger] rest[i]).scope == Scope::Both
                    && rest[i].down_bps == Some(down_classes(rest)[k].1) && rest[i].minor
                    == down_classes(rest)[k].0;
            assert(rules[i] == rest[i]);
        } else if 0 <= k < down_classes(rules).len() {
            assert(rules[n].scope == Scope::Both);
        }
    }
}

/// Each cap of an application is enforced in exactly one place: as a class where
/// the classifier steers that direction and the cap is on all remote addresses,
/// and by the packet filter otherwise. A block is always enforced by the packet
/// filter.
pub proof fn law_caps_are_enforced_once(e: Engine, i: int)
    requires
        0 <= i < e.in_order().len(),
    ensures
        ({
            let r = e.in_order()[i];
            let filter = e.filter_rules()[i];
            let shaped_up = e.shaper && r.scope == Scope::Both;
            let shaped_down = e.shapes_down() && r.scope == Scope::Both;
            &&& filter.blocked == r.blocked
            &&& filter.scope == r.scope
            &&& r.up_bps is Some && shaped_up ==> filter.up_bps is None && up_classes(
                e.in_order(),
            ).contains((r.minor, r.up_bps->0))
            &&& !shaped_up ==> filter.up_bps == r.up_bps
            &&& r.down_bps is Some && shaped_down ==> filter.down_bps is None && down_classes(
                e.in_order(),
            ).contains((r.minor, r.down_bps->0))
            &&& !shaped_down ==> filter.down_bps == r.down_bps
        }),
{
    let r = e.in_order()[i];
    assert(e.filter_rules()[i] == policed(r, e.shaper, e.shapes_down()));
    if r.scope == Scope::Both {
        if r.up_bps is Some {
            lemma_up_listed(e.in_order(), i);
        }
        if r.down_bps is Some {
            lemma_down_listed(e.in_order(), i);
        }
    }
}

/// A cap on one zone leaves the other zone alone: it has no class, which would take
/// in all traffic, and the packet filter matches the remote addresses of its zone
/// only.
pub proof fn law_scope_is_kept(e: Engine, i: int)
    requires
        0 <= i < e.in_order().len(),
        e.in_order()[i].scope != Scope::Both,
    ensures
        e.filter_rules()[i].scope == e.in_order()[i].scope,
        e.filter_rules()[i].up_bps == e.in_order()[i].up_bps,
        e.filter_rules()[i].down_bps == e.in_order()[i].down_bps,
        forall|k: int|
            #![trigger up_classes(e.in_order())[k]]
            0 <= k < up_classes(e.in_order()).len() ==> exists|j: int|
                0 <= j < e.in_order().len() && j != i && (#[trigger] e.in_order()[j]).scope
                    == Scope::Both && e.in_order()[j].minor == up_classes(e.in_order())[k].0,
        forall|k: int|
            #![trigger down_classes(e.in_order())[k]]
            0 <= k < down_classes(e.in_order()).len() ==> exists|j: int|
                0 <= j < e.in_order().len() && j != i && (#[trigger] e.in_order()[j]).scope
                    == Scope::Both && e.in_order()[j].minor == down_classes(e.in_order())[k].0,
{
    let rules = e.in_order();
    assert(e.filter_rules()[i] == policed(rules[i], e.shaper, e.shapes_down()));
    assert forall|k: int|
        #![trigger up_classes(rules)[k]]
        0 <= k < up_classes(rules).len() implies exists|j: int|
        0 <= j < rules.len() && j != i && (#[trigger] rules[j]).scope == Scope::Both
            && rules[j].minor == up_classes(rules)[k].0 by {
        lemma_only_unscoped(rules, k);
    }
    assert forall|k: int|
        #![trigger down_classes(rules)[k]]
        0 <= k < down_classes(rules).len() implies exists|j: int|
        0 <= j < rules.len() && j != i && (#[trigger] rules[j]).scope == Scope::Both
            && rules[j].minor == down_classes(rules)[k].0 by {
        lemma_only_unscoped(rules, k);
    }
}

/// The class of an application is not that of another, nor one of the classes of
/// the host.
pub proof fn law_classes_are_apart(a: u16, b: u16)
    requires
        a >= FIRST_MINOR,
    ensures
        app_classid(a) == app_classid(b) ==> a == b,
        app_classid(a) != "1:1"@,
        app_classid(a) != "1:2"@,
        app_classid(a) != "1:3"@,
{
    reveal_strlit("1:");
    reveal_strlit("1:1");
    reveal_strlit("1:2");
    reveal_strlit("1:3");
    lemma_numeral_value(a as nat, 16);
    lemma_numeral_value(b as nat, 16);
    assert(app_classid(a).skip(2) =~= numeral(a as nat, 16));
    assert(app_classid(b).skip(2) =~= numeral(b as nat, 16));
    lemma_numeral_value(a as nat / 16, 16);
    assert(numeral(a as nat, 16).len() >= 2);
    assert(app_classid(a).len() >= 4);
}

/// Whether all traffic of an application is blocked.
pub open spec fn is_blocked(e: Engine, exe: Seq<char>) -> bool {
    e.rules().dom().contains(exe) && e.rules()[exe].blocked
}

/// Blocking and unblocking take effect on the application and on no other, and
/// leave the caps of every application as they were.
pub proof fn law_block_takes_effect(
    before: Engine,
    exe: Seq<char>,
    blocked: bool,
    group: Result<(), String>,
    after: Engine,
    r: Result<Vec<Step>, String>,
)
    requires
        blocked_to(before, exe, blocked, group, after, r),
        r is Ok,
    ensures
        is_blocked(after, exe) == blocked,
        forall|other: Seq<char>|
            other != exe ==> #[trigger] is_blocked(after, other) == is_blocked(before, other),
        forall|other: Seq<char>| #[trigger]
            after.rules().dom().contains(other) && before.rules().dom().contains(other) ==> {
                &&& after.rules()[other].down_bps == before.rules()[other].down_bps
                &&& after.rules()[other].up_bps == before.rules()[other].up_bps
                &&& after.rules()[other].scope == before.rules()[other].scope
            },
{
}

/// Whether orders were carried out one after the other, each with success, which led
/// from the first of the engines to the last.
pub open spec fn carried_out(
    orders: Seq<(Seq<char>, bool)>,
    engines: Seq<Engine>,
    groups: Seq<Result<(), String>>,
    results: Seq<Result<Vec<Step>, String>>,
) -> bool {
    &&& engines.len() == orders.len() + 1
    &&& forall|i: int|
        #![trigger results[i]]
        0 <= i < orders.len() ==> results[i] is Ok && blocked_to(
            engines[i],
            orders[i].0,
            orders[i].1,
            groups[i],
            engines[i + 1],
            results[i],
        )
}

/// Carrying out orders leaves each application as the last order for it says.
pub proof fn law_orders_take_effect(
    orders: Seq<(Seq<char>, bool)>,
    engines: Seq<Engine>,
    groups: Seq<Result<(), String>>,
    results: Seq<Result<Vec<Step>, String>>,
    exe: Seq<char>,
)
    requires
        carried_out(orders, engines, groups, results),
    ensures
        is_blocked(engines.last(), exe) == block_after(
            is_blocked(engines[0], exe),
            orders_for(orders, exe),
        ),
    decreases orders.len(),
{
    if orders.len() > 0 {
        let n = orders.len() - 1;
        let before = engines.drop_last();
        assert forall|i: int|
            #![trigger results[i]]
            0 <= i < n implies results[i] is Ok && blocked_to(
            before[i],
            orders.drop_last()[i].0,
            orders.drop_last()[i].1,
            groups[i],
            before[i + 1],
            results[i],
        ) by {
            assert(orders.drop_last()[i] == orders[i]);
            assert(before[i] == engines[i] && before[i + 1] == engines[i + 1]);
        }
        law_orders_take_effect(orders.drop_last(), before, groups, results, exe);
        assert(results[n] is Ok);
        law_block_takes_effect(
            engines[n],
            orders[n].0,
            orders[n].1,
            groups[n],
            engines[n + 1],
            results[n],
        );
        assert(is_blocked(engines[n + 1], exe) == if orders[n].0 == exe {
            orders[n].1
        } else {
            is_blocked(engines[n], exe)
        });
    }
}

/// An accounting keeps blocks and quotas in agreement: where every application was
/// blocked exactly if its quota was exceeded, carrying out what the accounting orders
/// makes that so again.
pub proof fn law_accounting_keeps_blocks(
    a: QuotaManager,
    apps: Seq<AppStat>,
    now: u64,
    b: QuotaManager,
    engines: Seq<Engine>,
    groups: Seq<Result<(), String>>,
    results: Seq<Result<Vec<Step>, String>>,
    exe: Seq<char>,
)
    requires
        a.wf(),
        ticked_to(a, apps, now, b),
        carried_out(a.all_orders(apps, now), engines, groups, results),
        is_blocked(engines[0], exe) == a.is_exceeded(exe),
    ensures
        is_blocked(engines.last(), exe) == b.is_exceeded(exe),
{
    law_orders_take_effect(a.all_orders(apps, now), engines, groups, results, exe);
    law_blocks_follow_quotas(a, apps, now, b, exe);
}

/// Setting a quota keeps blocks and quotas in agreement as well, also where it takes
/// the place of one that was exceeded.
pub proof fn law_new_quota_keeps_blocks(
    a: QuotaManager,
    set: Seq<char>,
    q: QuotaEntry,
    mid: QuotaManager,
    apps: Seq<AppStat>,
    now: u64,
    b: QuotaManager,
    engines: Seq<Engine>,
    groups: Seq<Result<(), String>>,
    results: Seq<Result<Vec<Step>, String>>,
    exe: Seq<char>,
)
    requires
        !q.exceeded,
        mid.enters(a, set, q),
        ticked_to(mid, apps, now, b),
        carried_out(
            a.lift_orders(set) + mid.all_orders(apps, now),
            engines,
            groups,
            results,
        ),
        is_blocked(engines[0], exe) == a.is_exceeded(exe),
    ensures
        is_blocked(engines.last(), exe) == b.is_exceeded(exe),
{
    law_orders_take_effect(
        a.lift_orders(set) + mid.all_orders(apps, now),
        engines,
        groups,
        results,
        exe,
    );
    law_blocks_follow_new_quota(a, set, q, mid, apps, now, b, exe);
}

/// The orders to block executables, one after the other.
pub open spec fn block_orders(names: Seq<Seq<char>>) -> Seq<(Seq<char>, bool)> {
    names.map_values(|n: Seq<char>| (n, true))
}

proof fn lemma_block_orders(names: Seq<Seq<char>>, exe: Seq<char>)
    ensures
        block_after(false, orders_for(block_orders(names), exe)) == names.contains(exe),
    decreases names.len(),
{
    let list = block_orders(names);
    if names.len() > 0 {
        let rest = names.drop_last();
        lemma_block_orders(rest, exe);
        assert(list.drop_last() =~= block_orders(rest));
        assert(list.last() == (names.last(), true));
        if names.last() == exe {
            assert(names[names.len() - 1] == exe);
        } else {
            if rest.contains(exe) {
                let i = choose|i: int| 0 <= i < rest.len() && rest[i] == exe;
                assert(names[i] == exe);
            }
            if names.contains(exe) {
                let i = choose|i: int| 0 <= i < names.len() && names[i] == exe;
                assert(rest[i] == exe);
            }
        }
    }
}

/// After a restart blocks and quotas agree: where nothing is blocked yet, blocking what
/// taking over the stored quotas lists makes every application blocked exactly if its
/// quota is exceeded.
pub proof fn law_restart_restores_blocks(
    m: QuotaManager,
    engines: Seq<Engine>,
    groups: Seq<Result<(), String>>,
    results: Seq<Result<Vec<Step>, String>>,
    exe: Seq<char>,
)
    requires
        m.wf(),
        carried_out(block_orders(exceeded_names(m.quotas.entries@)), engines, groups, results),
        !is_blocked(engines[0], exe),
    ensures
        is_blocked(engines.last(), exe) == m.is_exceeded(exe),
{
    let names = exceeded_names(m.quotas.entries@);
    law_orders_take_effect(block_orders(names), engines, groups, results, exe);
    lemma_block_orders(names, exe);
    law_exceeded_are_named(m, exe);
}

/// Removing a quota keeps blocks and quotas in agreement: the block of one that was
/// exceeded is lifted, and nothing else is ordered.
pub proof fn law_cleared_quota_keeps_blocks(
    a: QuotaManager,
    cleared: Seq<char>,
    b: QuotaManager,
    engines: Seq<Engine>,
    groups: Seq<Result<(), String>>,
    results: Seq<Result<Vec<Step>, String>>,
    exe: Seq<char>,
)
    requires
        b.quotas@ == a.quotas@.remove(cleared),
        carried_out(a.lift_orders(cleared), engines, groups, results),
        is_blocked(engines[0], exe) == a.is_exceeded(exe),
    ensures
        is_blocked(engines.last(), exe) == b.is_exceeded(exe),
{
    let lift = a.lift_orders(cleared);
    law_orders_take_effect(lift, engines, groups, results, exe);
    reveal_with_fuel(orders_for, 3);
    if a.is_exceeded(cleared) {
        assert(lift.drop_last() =~= Seq::<(Seq<char>, bool)>::empty());
    }
}

/// A rule that is set is listed as it was set.
pub proof fn law_rule_is_listed(e: Engine, out: Seq<AppLimit>, pids: Seq<u32>, exe: Seq<char>)
    requires
        e.wf(),
        lists_limits(out, e.apps.entries@, pids),
        e.rules().dom().contains(exe),
    ensures
        exists|i: int|
            0 <= i < out.len() && (#[trigger] out[i]).exe@ == exe && out[i].down_bps
                == e.rules()[exe].down_bps && out[i].up_bps == e.rules()[exe].up_bps && out[i].scope
                == e.rules()[exe].scope,
{
    let entries = e.apps.entries@;
    let p = choose|p: Seq<int>| #[trigger] lists_in_order(out, entries, pids, p);
    let k = key_index(entries, exe);
    assert(has_key(entries, exe));
    assert(p.contains(k));
    let i = choose|i: int| 0 <= i < p.len() && p[i] == k;
    e.apps.lemma_entry(k);
    assert(out[i].exe@ == exe);
}

/// An IPv4 address as text.
pub open spec fn v4_text(ip: Ipv4Addr) -> Seq<char> {
    decimal((ip.bits / 0x100_0000) as nat) + "."@ + decimal((ip.bits / 0x1_0000 % 0x100) as nat)
        + "."@ + decimal((ip.bits / 0x100 % 0x100) as nat) + "."@ + decimal(
        (ip.bits % 0x100) as nat,
    )
}

/// An IPv4 prefix as text.
pub open spec fn v4_prefix_text(c: Cidr) -> Seq<char> {
    v4_text(c.net->V4_0) + "/"@ + decimal(c.prefix as nat)
}

proof fn lemma_small_decimals()
    ensures
        decimal(0) == seq!['0'],
        decimal(8) == seq!['8'],
        decimal(10) == seq!['1', '0'],
        decimal(12) == seq!['1', '2'],
        decimal(16) == seq!['1', '6'],
        decimal(64) == seq!['6', '4'],
        decimal(100) == seq!['1', '0', '0'],
        decimal(127) == seq!['1', '2', '7'],
        decimal(168) == seq!['1', '6', '8'],
        decimal(169) == seq!['1', '6', '9'],
        decimal(172) == seq!['1', '7', '2'],
        decimal(192) == seq!['1', '9', '2'],
        decimal(254) == seq!['2', '5', '4'],
{
    reveal_with_fuel(numeral, 4);
    assert(decimal(0) =~= seq!['0']);
    assert(decimal(8) =~= seq!['8']);
    assert(decimal(10) =~= seq!['1', '0']);
    assert(decimal(12) =~= seq!['1', '2']);
    assert(decimal(16) =~= seq!['1', '6']);
    assert(decimal(64) =~= seq!['6', '4']);
    assert(decimal(100) =~= seq!['1', '0', '0']);
    assert(decimal(127) =~= seq!['1', '2', '7']);
    assert(decimal(168) =~= seq!['1', '6', '8']);
    assert(decimal(169) =~= seq!['1', '6', '9']);
    assert(decimal(172) =~= seq!['1', '7', '2']);
    assert(decimal(192) =~= seq!['1', '9', '2']);
    assert(decimal(254) =~= seq!['2', '5', '4']);
}

/// The IPv4 ranges that are shaped and policed as local are the fixed ranges that
/// the monitor counts as local.
pub proof fn law_local_ranges_agree(i: int)
    requires
        0 <= i < v4_lan().len(),
    ensures
        fixed()[i].net is V4,
        v4_lan()[i] == v4_prefix_text(fixed()[i]),
        V4_PRIVATE@ == v4_lan()[0] + ", "@ + v4_lan()[1] + ", "@ + v4_lan()[2] + ", "@ + v4_lan()[3]
            + ", "@ + v4_lan()[4] + ", "@ + v4_lan()[5],
{
    lemma_small_decimals();
    reveal_strlit(".");
    reveal_strlit("/");
    reveal_strlit(", ");
    reveal_strlit("127.0.0.0/8");
    reveal_strlit("10.0.0.0/8");
    reveal_strlit("172.16.0.0/12");
    reveal_strlit("192.168.0.0/16");
    reveal_strlit("169.254.0.0/16");
    reveal_strlit("100.64.0.0/10");
    reveal_strlit(
        "127.0.0.0/8, 10.0.0.0/8, 172.16.0.0/12, 192.168.0.0/16, 169.254.0.0/16, 100.64.0.0/10",
    );
    assert(V4_PRIVATE@ =~= v4_lan()[0] + ", "@ + v4_lan()[1] + ", "@ + v4_lan()[2] + ", "@
        + v4_lan()[3] + ", "@ + v4_lan()[4] + ", "@ + v4_lan()[5]);
    if i == 0 {
        assert(v4_lan()[0] =~= v4_prefix_text(fixed()[0]));
    } else if i == 1 {
        assert(v4_lan()[1] =~= v4_prefix_text(fixed()[1]));
    } else if i == 2 {
        assert(v4_lan()[2] =~= v4_prefix_text(fixed()[2]));
    } else if i == 3 {
        assert(v4_lan()[3] =~= v4_prefix_text(fixed()[3]));
    } else if i == 4 {
        assert(v4_lan()[4] =~= v4_prefix_text(fixed()[4]));
    } else {
        assert(v4_lan()[5] =~= v4_prefix_text(fixed()[5]));
    }
}

} // verus!
