//! What the plans of the limiter do, in the words of the tools that carry them out.

use vstd::prelude::*;

use crate::engine::laws::{lemma_down_listed, lemma_up_listed};
use crate::engine::limiter::{
    blocked_to, class_maps, creation_text, down_classes, inbound_classes, lists_in_order,
    lists_limits, policed, up_classes, Engine, Rule,
};
use crate::engine::nft::{law_blocked_application_is_dropped, law_script_holds_every_rule};
use crate::engine::nft::{rule_lines, RuleModel};
use crate::engine::step::{all_within, plan, Step, StepModel, Tool};
use crate::engine::tc::{
    app_classes, class_add, lan_filter, lan_filters, legacy_redirect, or_else, redirect_add,
    scoped_tree, tree, v4_lan, v6_lan, LINE_RATE_BPS,
};
use crate::number::{decimal, numeral};
use crate::order::name_le;
use crate::proto::{AppLimit, Scope};
use crate::table::{has_key, key_index};

verus! {

/// Whether a plan runs a command of `tc` that must succeed.
pub open spec fn runs(p: Seq<StepModel>, args: Seq<Seq<char>>) -> bool {
    exists|i: int|
        0 <= i < p.len() && (#[trigger] p[i]) is Run && p[i]->Run_tool == Tool::Tc
            && p[i]->Run_args == args
}

/// The words that add a class with a rate and a ceiling in bytes per second.
pub open spec fn class_words(
    dev: Seq<char>,
    parent: Seq<char>,
    classid: Seq<char>,
    rate: u64,
    ceil: u64,
) -> Seq<Seq<char>> {
    seq![
        "class"@,
        "add"@,
        "dev"@,
        dev,
        "parent"@,
        parent,
        "classid"@,
        classid,
        "htb"@,
        "rate"@,
        decimal(rate as nat) + "bps"@,
        "ceil"@,
        decimal(ceil as nat) + "bps"@,
    ]
}

/// The words that send the traffic of a range of addresses to a class.
pub open spec fn range_words(
    dev: Seq<char>,
    protocol: Seq<char>,
    matcher: Seq<char>,
    field: Seq<char>,
    range: Seq<char>,
    classid: Seq<char>,
) -> Seq<Seq<char>> {
    seq![
        "filter"@,
        "add"@,
        "dev"@,
        dev,
        "parent"@,
        "1:"@,
        "protocol"@,
        protocol,
        "prio"@,
        "1"@,
        "u32"@,
        "match"@,
        matcher,
        field,
        range,
        "flowid"@,
        classid,
    ]
}

/// Whether a plan sends every local range to the class of the local network.
pub open spec fn steers_local(p: Seq<StepModel>, dev: Seq<char>, field: Seq<char>) -> bool {
    &&& runs(p, range_words(dev, "ip"@, "ip"@, field, "127.0.0.0/8"@, "1:2"@))
    &&& runs(p, range_words(dev, "ip"@, "ip"@, field, "10.0.0.0/8"@, "1:2"@))
    &&& runs(p, range_words(dev, "ip"@, "ip"@, field, "172.16.0.0/12"@, "1:2"@))
    &&& runs(p, range_words(dev, "ip"@, "ip"@, field, "192.168.0.0/16"@, "1:2"@))
    &&& runs(p, range_words(dev, "ip"@, "ip"@, field, "169.254.0.0/16"@, "1:2"@))
    &&& runs(p, range_words(dev, "ip"@, "ip"@, field, "100.64.0.0/10"@, "1:2"@))
    &&& runs(p, range_words(dev, "ipv6"@, "ip6"@, field, "::1/128"@, "1:2"@))
    &&& runs(p, range_words(dev, "ipv6"@, "ip6"@, field, "fc00::/7"@, "1:2"@))
    &&& runs(p, range_words(dev, "ipv6"@, "ip6"@, field, "fe80::/10"@, "1:2"@))
}

proof fn lemma_runs_at(p: Seq<StepModel>, i: int, args: Seq<Seq<char>>)
    requires
        0 <= i < p.len(),
        p[i] is Run,
        p[i]->Run_tool == Tool::Tc,
        p[i]->Run_args =~= args,
    ensures
        runs(p, args),
{
}

proof fn lemma_runs_within(p: Seq<StepModel>, context: Seq<char>, args: Seq<Seq<char>>)
    requires
        runs(p, args),
    ensures
        runs(all_within(p, context), args),
{
    let i = choose|i: int|
        0 <= i < p.len() && (#[trigger] p[i]) is Run && p[i]->Run_tool == Tool::Tc
            && p[i]->Run_args == args;
    lemma_runs_at(all_within(p, context), i, args);
}

proof fn lemma_runs_among(
    a: Seq<StepModel>,
    p: Seq<StepModel>,
    b: Seq<StepModel>,
    args: Seq<Seq<char>>,
)
    requires
        runs(p, args),
    ensures
        runs(a + p + b, args),
{
    let i = choose|i: int|
        0 <= i < p.len() && (#[trigger] p[i]) is Run && p[i]->Run_tool == Tool::Tc
            && p[i]->Run_args == args;
    assert((a + p + b)[a.len() + i] == p[i]);
    lemma_runs_at(a + p + b, a.len() + i, args);
}

proof fn lemma_local_among(
    a: Seq<StepModel>,
    p: Seq<StepModel>,
    b: Seq<StepModel>,
    context: Seq<char>,
    dev: Seq<char>,
    field: Seq<char>,
)
    requires
        steers_local(p, dev, field),
    ensures
        steers_local(a + all_within(p, context) + b, dev, field),
{
    assert forall|args: Seq<Seq<char>>| #[trigger] runs(p, args) implies runs(
        a + all_within(p, context) + b,
        args,
    ) by {
        lemma_runs_within(p, context, args);
        lemma_runs_among(a, all_within(p, context), b, args);
    }
}

/// A tree caps its device at the total, gives each zone a class with its own cap as
/// the rate, gives each application a class with its cap as the rate, lets none of
/// these exceed the total, and sends every local range to the class of the local
/// network. Where there is no total, a line rate of ten gigabytes per second stands
/// for it, and where a zone has no cap, the total does.
pub proof fn law_tree_has_all_classes(
    dev: Seq<char>,
    field: Seq<char>,
    total: Option<u64>,
    lan: Option<u64>,
    inet: Option<u64>,
    apps: Seq<(u16, u64)>,
)
    ensures
        ({
            let p = tree(dev, field, total, lan, inet, apps);
            let top = if total is Some {
                total->0
            } else {
                10_000_000_000
            };
            &&& runs(p, class_words(dev, "1:"@, "1:1"@, top, top))
            &&& runs(
                p,
                class_words(
                    dev,
                    "1:1"@,
                    "1:2"@,
                    if lan is Some {
                        lan->0
                    } else {
                        top
                    },
                    top,
                ),
            )
            &&& runs(
                p,
                class_words(
                    dev,
                    "1:1"@,
                    "1:3"@,
                    if inet is Some {
                        inet->0
                    } else {
                        top
                    },
                    top,
                ),
            )
            &&& forall|k: int|
                #![trigger apps[k]]
                0 <= k < apps.len() ==> runs(
                    p,
                    class_words(
                        dev,
                        "1:1"@,
                        "1:"@ + numeral(apps[k].0 as nat, 16),
                        apps[k].1,
                        top,
                    ),
                )
            &&& steers_local(p, dev, field)
            &&& p[0] is Run && p[0]->Run_args == seq![
                "qdisc"@,
                "add"@,
                "dev"@,
                dev,
                "root"@,
                "handle"@,
                "1:"@,
                "htb"@,
                "default"@,
                "3"@,
            ]
        }),
{
    let p = tree(dev, field, total, lan, inet, apps);
    let top = or_else(total, LINE_RATE_BPS);
    let n = apps.len() as int;
    let classes = app_classes(dev, top, apps);
    lemma_runs_at(p, 1, class_words(dev, "1:"@, "1:1"@, top, top));
    lemma_runs_at(p, 2, class_words(dev, "1:1"@, "1:2"@, or_else(lan, top), top));
    lemma_runs_at(p, 3, class_words(dev, "1:1"@, "1:3"@, or_else(inet, top), top));
    assert forall|k: int| #![trigger apps[k]] 0 <= k < apps.len() implies runs(
        p,
        class_words(dev, "1:1"@, "1:"@ + numeral(apps[k].0 as nat, 16), apps[k].1, top),
    ) by {
        assert(p[4 + k] == classes[k]);
        lemma_runs_at(
            p,
            4 + k,
            class_words(dev, "1:1"@, "1:"@ + numeral(apps[k].0 as nat, 16), apps[k].1, top),
        );
    }
    let f = lan_filters(dev, field);
    assert forall|k: int| 0 <= k < 9 implies #[trigger] p[4 + n + k] == f[k] by {}
    assert forall|k: int| 0 <= k < 6 implies #[trigger] f[k] == lan_filter(
        dev,
        "ip"@,
        "ip"@,
        field,
        v4_lan()[k],
    ) by {}
    assert forall|k: int| 6 <= k < 9 implies #[trigger] f[k] == lan_filter(
        dev,
        "ipv6"@,
        "ip6"@,
        field,
        v6_lan()[k - 6],
    ) by {}
    lemma_filter_runs(p, 4 + n, dev, "ip"@, "ip"@, field, "127.0.0.0/8"@);
    lemma_filter_runs(p, 4 + n + 1, dev, "ip"@, "ip"@, field, "10.0.0.0/8"@);
    lemma_filter_runs(p, 4 + n + 2, dev, "ip"@, "ip"@, field, "172.16.0.0/12"@);
    lemma_filter_runs(p, 4 + n + 3, dev, "ip"@, "ip"@, field, "192.168.0.0/16"@);
    lemma_filter_runs(p, 4 + n + 4, dev, "ip"@, "ip"@, field, "169.254.0.0/16"@);
    lemma_filter_runs(p, 4 + n + 5, dev, "ip"@, "ip"@, field, "100.64.0.0/10"@);
    lemma_filter_runs(p, 4 + n + 6, dev, "ipv6"@, "ip6"@, field, "::1/128"@);
    lemma_filter_runs(p, 4 + n + 7, dev, "ipv6"@, "ip6"@, field, "fc00::/7"@);
    lemma_filter_runs(p, 4 + n + 8, dev, "ipv6"@, "ip6"@, field, "fe80::/10"@);
}

proof fn lemma_filter_runs(
    p: Seq<StepModel>,
    i: int,
    dev: Seq<char>,
    protocol: Seq<char>,
    matcher: Seq<char>,
    field: Seq<char>,
    range: Seq<char>,
)
    requires
        0 <= i < p.len(),
        p[i] == lan_filter(dev, protocol, matcher, field, range),
    ensures
        runs(p, range_words(dev, protocol, matcher, field, range, "1:2"@)),
{
    lemma_runs_at(p, i, range_words(dev, protocol, matcher, field, range, "1:2"@));
}

/// Nothing in a tree may exceed the total: no class has another ceiling.
pub proof fn law_tree_keeps_the_total(
    dev: Seq<char>,
    field: Seq<char>,
    total: u64,
    lan: Option<u64>,
    inet: Option<u64>,
    apps: Seq<(u16, u64)>,
    i: int,
)
    requires
        0 <= i < tree(dev, field, Some(total), lan, inet, apps).len(),
    ensures
        ({
            let s = tree(dev, field, Some(total), lan, inet, apps)[i];
            s is Run && s->Run_args[0] == "class"@ ==> s->Run_args.len() == 13
                && s->Run_args[11] == "ceil"@ && s->Run_args[12] == decimal(total as nat) + "bps"@
        }),
{
    let p = tree(dev, field, Some(total), lan, inet, apps);
    let classes = app_classes(dev, total, apps);
    let n = classes.len() as int;
    reveal_strlit("class");
    reveal_strlit("filter");
    reveal_strlit("qdisc");
    assert("class"@.len() != "filter"@.len());
    assert("class"@[0] != "qdisc"@[0]);
    if i >= 4 + n {
        let f = lan_filters(dev, field);
        let k = i - 4 - n;
        assert(p[i] == f[k]);
        if k < 6 {
            assert(f[k] == lan_filter(dev, "ip"@, "ip"@, field, v4_lan()[k]));
        } else {
            assert(f[k] == lan_filter(dev, "ipv6"@, "ip6"@, field, v6_lan()[k - 6]));
        }
    } else if i >= 4 {
        assert(p[i] == classes[i - 4]);
    }
}

/// The tree of inbound traffic stands on the intermediate device, which is created and
/// brought up before.
pub proof fn law_scoped_tree_stands_on_its_device(
    ifb: Seq<char>,
    total: Option<u64>,
    lan: Option<u64>,
    inet: Option<u64>,
    apps: Seq<(u16, u64)>,
)
    ensures
        ({
            let p = scoped_tree(ifb, total, lan, inet, apps);
            &&& p.skip(2) == tree(ifb, "src"@, total, lan, inet, apps)
            &&& p[0] is Try && p[0]->Try_tool == Tool::Ip && p[0]->Try_args == seq![
                "link"@,
                "add"@,
                ifb,
                "type"@,
                "ifb"@,
            ]
            &&& p[1] is Run && p[1]->Run_tool == Tool::Ip && p[1]->Run_args == seq![
                "link"@,
                "set"@,
                "dev"@,
                ifb,
                "up"@,
            ]
        }),
{
    assert(scoped_tree(ifb, total, lan, inet, apps).skip(2) =~= tree(
        ifb,
        "src"@,
        total,
        lan,
        inet,
        apps,
    ));
}

/// While the limiter is on, uploads of the host are held to its caps on the interface:
/// to the total, below it to the cap of each zone, and the local ranges are told from
/// the rest by the destination.
pub proof fn law_uploads_of_the_host_are_capped(e: Engine)
    requires
        e.limiter.enabled,
    ensures
        ({
            let p = e.egress_plan();
            let host = e.limiter.host;
            let dev = e.limiter.interface@;
            let top = if host.up_bps is Some {
                host.up_bps->0
            } else {
                10_000_000_000
            };
            let lan = if host.lan.up_bps is Some {
                host.lan.up_bps->0
            } else {
                top
            };
            let inet = if host.internet.up_bps is Some {
                host.internet.up_bps->0
            } else {
                top
            };
            &&& runs(p, class_words(dev, "1:"@, "1:1"@, top, top))
            &&& runs(p, class_words(dev, "1:1"@, "1:2"@, lan, top))
            &&& runs(p, class_words(dev, "1:1"@, "1:3"@, inet, top))
            &&& steers_local(p, dev, "dst"@)
            &&& forall|i: int|
                0 <= i < p.len() && host.up_bps is Some && (#[trigger] p[i]) is Run
                    && p[i]->Run_args[0] == "class"@ ==> p[i]->Run_args.len() == 13
                    && p[i]->Run_args[12] == decimal(top as nat) + "bps"@
        }),
{
    let host = e.limiter.host;
    let dev = e.limiter.interface@;
    let apps = if e.shaper {
        up_classes(e.in_order())
    } else {
        Seq::empty()
    };
    let t = tree(dev, "dst"@, host.up_bps, host.lan.up_bps, host.internet.up_bps, apps);
    let context = "building egress HTB tree"@;
    law_tree_has_all_classes(
        dev,
        "dst"@,
        host.up_bps,
        host.lan.up_bps,
        host.internet.up_bps,
        apps,
    );
    let head = e.egress_plan().take(if e.shaper {
        2
    } else {
        1
    });
    let tail = if e.shaper {
        class_maps(e.in_order())
    } else {
        Seq::empty()
    };
    assert(e.egress_plan() =~= head + all_within(t, context) + tail);
    assert forall|args: Seq<Seq<char>>| #[trigger] runs(t, args) implies runs(
        e.egress_plan(),
        args,
    ) by {
        lemma_runs_within(t, context, args);
        lemma_runs_among(head, all_within(t, context), tail, args);
    }
    let p = e.egress_plan();
    let h = head.len() as int;
    assert forall|i: int|
        0 <= i < p.len() && host.up_bps is Some && (#[trigger] p[i]) is Run && p[i]->Run_args[0]
            == "class"@ implies p[i]->Run_args.len() == 13 && p[i]->Run_args[12] == decimal(
        host.up_bps->0 as nat,
    ) + "bps"@ by {
        if i < h {
            assert(!(p[i] is Run));
        } else if i < h + t.len() {
            assert(p[i] == t[i - h].within(context));
            law_tree_keeps_the_total(
                dev,
                "dst"@,
                host.up_bps->0,
                host.lan.up_bps,
                host.internet.up_bps,
                apps,
                i - h,
            );
        } else {
            assert(p[i] == tail[i - h - t.len()]);
            lemma_maps_run_nothing(e.in_order(), i - h - t.len());
        }
    }
}

proof fn lemma_maps_run_nothing(rules: Seq<Rule>, i: int)
    requires
        0 <= i < class_maps(rules).len(),
    ensures
        class_maps(rules)[i] is MapClass,
    decreases rules.len(),
{
    if rules.len() > 0 && i < class_maps(rules.drop_last()).len() {
        lemma_maps_run_nothing(rules.drop_last(), i);
    }
}

/// The steps of the inbound plan before and after what is built on the intermediate
/// device.
proof fn lemma_inbound_parts(e: Engine)
    requires
        e.limiter.enabled,
    ensures
        ({
            let host = e.limiter.host;
            let zones = host.lan.down_bps is Some || host.internet.down_bps is Some;
            let classes = down_classes(e.in_order());
            let plain = Seq::<(u16, u64)>::empty();
            let t = tree(
                "ifbcurb"@,
                "src"@,
                host.down_bps,
                host.lan.down_bps,
                host.internet.down_bps,
                if e.shapes_down() {
                    classes
                } else {
                    plain
                },
            );
            let p = e.ingress_plan();
            let context = if e.shapes_down() {
                "building IFB HTB root"@
            } else {
                "building scoped host download shaping"@
            };
            &&& zones || (host.down_bps is Some && !e.shapes_down()) ==> p == p.take(5)
                + all_within(t, context) + p.skip(5 + t.len() as int) && p.len() >= 5 + t.len()
        }),
{
    let host = e.limiter.host;
    let zones = host.lan.down_bps is Some || host.internet.down_bps is Some;
    let classes = down_classes(e.in_order());
    let t = tree(
        "ifbcurb"@,
        "src"@,
        host.down_bps,
        host.lan.down_bps,
        host.internet.down_bps,
        if e.shapes_down() {
            classes
        } else {
            Seq::empty()
        },
    );
    let p = e.ingress_plan();
    let context = if e.shapes_down() {
        "building IFB HTB root"@
    } else {
        "building scoped host download shaping"@
    };
    if zones || (host.down_bps is Some && !e.shapes_down()) {
        assert(p =~= p.take(5) + all_within(t, context) + p.skip(5 + t.len() as int));
    }
}

/// While the limiter is on, downloads of the host are held to its caps on the
/// intermediate device: to the total, whether or not there are caps on the zones or the
/// classifier steers downloads, and below it to the cap of each zone, where the local
/// ranges are told from the rest by the source.
pub proof fn law_downloads_of_the_host_are_capped(e: Engine)
    requires
        e.limiter.enabled,
    ensures
        ({
            let p = e.ingress_plan();
            let host = e.limiter.host;
            let dev = "ifbcurb"@;
            let top = if host.down_bps is Some {
                host.down_bps->0
            } else {
                10_000_000_000
            };
            let lan = if host.lan.down_bps is Some {
                host.lan.down_bps->0
            } else {
                top
            };
            let inet = if host.internet.down_bps is Some {
                host.internet.down_bps->0
            } else {
                top
            };
            let zones = host.lan.down_bps is Some || host.internet.down_bps is Some;
            &&& host.down_bps is Some || zones ==> runs(
                p,
                class_words(dev, "1:"@, "1:1"@, top, top),
            )
            &&& zones ==> runs(p, class_words(dev, "1:1"@, "1:2"@, lan, top))
            &&& zones ==> runs(p, class_words(dev, "1:1"@, "1:3"@, inet, top))
            &&& zones ==> steers_local(p, dev, "src"@)
        }),
{
    let p = e.ingress_plan();
    let host = e.limiter.host;
    let zones = host.lan.down_bps is Some || host.internet.down_bps is Some;
    let classes = down_classes(e.in_order());
    if zones || (host.down_bps is Some && !e.shapes_down()) {
        let apps = if e.shapes_down() {
            classes
        } else {
            Seq::empty()
        };
        let t = tree(
            "ifbcurb"@,
            "src"@,
            host.down_bps,
            host.lan.down_bps,
            host.internet.down_bps,
            apps,
        );
        let context = if e.shapes_down() {
            "building IFB HTB root"@
        } else {
            "building scoped host download shaping"@
        };
        lemma_inbound_parts(e);
        law_tree_has_all_classes(
            "ifbcurb"@,
            "src"@,
            host.down_bps,
            host.lan.down_bps,
            host.internet.down_bps,
            apps,
        );
        let head = p.take(5);
        let tail = p.skip(5 + t.len() as int);
        assert forall|args: Seq<Seq<char>>| #[trigger] runs(t, args) implies runs(p, args) by {
            lemma_runs_within(t, context, args);
            lemma_runs_among(head, all_within(t, context), tail, args);
        }
    } else if host.down_bps is Some {
        let top = host.down_bps->0;
        assert(p[6] == class_add("ifbcurb"@, "1:"@, "1:1"@, top, top).within(
            "building IFB HTB root"@,
        ));
        lemma_runs_at(p, 6, class_words("ifbcurb"@, "1:"@, "1:1"@, top, top));
    }
}

/// Every application with a rule stands among the rules that plans go through.
pub proof fn law_every_rule_is_gone_through(e: Engine, exe: Seq<char>)
    requires
        e.wf(),
        e.rules().dom().contains(exe),
    ensures
        e.in_order().contains(e.rules()[exe]),
        e.in_order().len() == e.apps.entries@.len(),
{
    let k = key_index(e.apps.entries@, exe);
    assert(has_key(e.apps.entries@, exe));
    assert(e.in_order()[k] == e.rules()[exe]);
}

proof fn lemma_mapped(rules: Seq<Rule>, k: int)
    requires
        0 <= k < rules.len(),
        rules[k].scope == Scope::Both,
        rules[k].up_bps is Some || rules[k].down_bps is Some,
    ensures
        class_maps(rules).contains(
            StepModel::MapClass { dir: rules[k].dir, classid: (65536 + rules[k].minor) as u32 },
        ),
    decreases rules.len(),
{
    let s = StepModel::MapClass { dir: rules[k].dir, classid: (65536 + rules[k].minor) as u32 };
    let all = class_maps(rules);
    if k == rules.len() - 1 {
        assert(all.last() == s);
        assert(all[all.len() - 1] == s);
    } else {
        let rest = rules.drop_last();
        lemma_mapped(rest, k);
        let i = choose|i: int| 0 <= i < class_maps(rest).len() && class_maps(rest)[i] == s;
        assert(all[i] == s);
    }
}

/// Where the classifier is attached and the limiter is on, an upload cap of an
/// application on all remote addresses is a class of its own below the total of the
/// host, and the traffic of the application is steered to it.
pub proof fn law_upload_cap_is_shaped(e: Engine, exe: Seq<char>)
    requires
        e.wf(),
        e.limiter.enabled,
        e.shaper,
        e.rules().dom().contains(exe),
        e.rules()[exe].scope == Scope::Both,
        e.rules()[exe].up_bps is Some,
    ensures
        ({
            let r = e.rules()[exe];
            let top = if e.limiter.host.up_bps is Some {
                e.limiter.host.up_bps->0
            } else {
                10_000_000_000
            };
            &&& runs(
                e.egress_plan(),
                class_words(
                    e.limiter.interface@,
                    "1:1"@,
                    "1:"@ + numeral(r.minor as nat, 16),
                    r.up_bps->0,
                    top,
                ),
            )
        }),
{
    let r = e.rules()[exe];
    let rules = e.in_order();
    law_every_rule_is_gone_through(e, exe);
    let k = choose|k: int| 0 <= k < rules.len() && rules[k] == r;
    lemma_up_listed(rules, k);
    let apps = up_classes(rules);
    let j = choose|j: int| 0 <= j < apps.len() && apps[j] == (r.minor, r.up_bps->0);
    let host = e.limiter.host;
    let dev = e.limiter.interface@;
    let t = tree(dev, "dst"@, host.up_bps, host.lan.up_bps, host.internet.up_bps, apps);
    let context = "building egress HTB tree"@;
    law_tree_has_all_classes(
        dev,
        "dst"@,
        host.up_bps,
        host.lan.up_bps,
        host.internet.up_bps,
        apps,
    );
    assert(apps[j].1 == r.up_bps->0);
    let head = e.egress_plan().take(2);
    let tail = class_maps(rules);
    assert(e.egress_plan() =~= head + all_within(t, context) + tail);
    let top = if host.up_bps is Some {
        host.up_bps->0
    } else {
        10_000_000_000
    };
    let args = class_words(dev, "1:1"@, "1:"@ + numeral(r.minor as nat, 16), r.up_bps->0, top);
    lemma_runs_within(t, context, args);
    lemma_runs_among(head, all_within(t, context), tail, args);
}

/// Where the classifier is attached and the limiter is on, the traffic of every
/// application with a cap on all remote addresses is steered to its class.
pub proof fn law_capped_traffic_is_steered(e: Engine, exe: Seq<char>)
    requires
        e.wf(),
        e.limiter.enabled,
        e.shaper,
        e.rules().dom().contains(exe),
        e.rules()[exe].scope == Scope::Both,
        e.rules()[exe].up_bps is Some || e.rules()[exe].down_bps is Some,
    ensures
        e.egress_plan().contains(
            StepModel::MapClass {
                dir: e.rules()[exe].dir,
                classid: (65536 + e.rules()[exe].minor) as u32,
            },
        ),
{
    let rules = e.in_order();
    law_every_rule_is_gone_through(e, exe);
    let k = choose|k: int| 0 <= k < rules.len() && rules[k] == e.rules()[exe];
    lemma_mapped(rules, k);
    let s = StepModel::MapClass {
        dir: e.rules()[exe].dir,
        classid: (65536 + e.rules()[exe].minor) as u32,
    };
    let maps = class_maps(rules);
    let j = choose|j: int| 0 <= j < maps.len() && maps[j] == s;
    let p = e.egress_plan();
    assert(p[p.len() - maps.len() + j] == s);
}

/// Where the classifier steers downloads too, a download cap of an application on all
/// remote addresses is a class of its own on the intermediate device, with the cap as
/// its rate and a ceiling that is not below it unless the host is capped lower.
pub proof fn law_download_cap_is_shaped(e: Engine, exe: Seq<char>)
    requires
        e.wf(),
        e.limiter.enabled,
        e.shaper,
        e.ebpf_ingress,
        e.rules().dom().contains(exe),
        e.rules()[exe].scope == Scope::Both,
        e.rules()[exe].down_bps is Some,
    ensures
        ({
            let r = e.rules()[exe];
            let host = e.limiter.host;
            let classid = "1:"@ + numeral(r.minor as nat, 16);
            let cap = r.down_bps->0;
            let top = if host.down_bps is Some {
                host.down_bps->0
            } else {
                10_000_000_000
            };
            if host.lan.down_bps is Some || host.internet.down_bps is Some {
                runs(e.ingress_plan(), class_words("ifbcurb"@, "1:1"@, classid, cap, top))
            } else {
                runs(
                    e.ingress_plan(),
                    class_words(
                        "ifbcurb"@,
                        "1:"@,
                        classid,
                        cap,
                        if cap > top {
                            cap
                        } else {
                            top
                        },
                    ),
                )
            }
        }),
{
    let r = e.rules()[exe];
    let rules = e.in_order();
    law_every_rule_is_gone_through(e, exe);
    let k = choose|k: int| 0 <= k < rules.len() && rules[k] == r;
    lemma_down_listed(rules, k);
    let apps = down_classes(rules);
    let j = choose|j: int| 0 <= j < apps.len() && apps[j] == (r.minor, r.down_bps->0);
    assert(apps[j].1 == r.down_bps->0);
    let host = e.limiter.host;
    let p = e.ingress_plan();
    let top = if host.down_bps is Some {
        host.down_bps->0
    } else {
        10_000_000_000
    };
    let cap = r.down_bps->0;
    let classid = "1:"@ + numeral(r.minor as nat, 16);
    if host.lan.down_bps is Some || host.internet.down_bps is Some {
        let t = tree(
            "ifbcurb"@,
            "src"@,
            host.down_bps,
            host.lan.down_bps,
            host.internet.down_bps,
            apps,
        );
        let context = "building IFB HTB root"@;
        lemma_inbound_parts(e);
        law_tree_has_all_classes(
            "ifbcurb"@,
            "src"@,
            host.down_bps,
            host.lan.down_bps,
            host.internet.down_bps,
            apps,
        );
        let args = class_words("ifbcurb"@, "1:1"@, classid, cap, top);
        lemma_runs_within(t, context, args);
        lemma_runs_among(p.take(5), all_within(t, context), p.skip(5 + t.len() as int), args);
    } else {
        let ceil = if cap > top {
            cap
        } else {
            top
        };
        assert(p[7 + j] == inbound_classes(apps, top)[j].within("adding per-app ingress class"@));
        lemma_runs_at(p, 7 + j, class_words("ifbcurb"@, "1:"@, classid, cap, ceil));
    }
}

/// While the limiter is on, the rule set of the packet filter holds the lines of every
/// application: its block, and each of its caps that is not shaped.
pub proof fn law_rest_is_policed(e: Engine, exe: Seq<char>, m: RuleModel)
    requires
        e.wf(),
        e.limiter.enabled,
        e.rules().dom().contains(exe),
        m.group == "curb"@ + "/"@ + e.rules()[exe].dir,
        m.scope == e.rules()[exe].scope,
        m.blocked == e.rules()[exe].blocked,
        m.up_bps == if e.shaper && m.scope == Scope::Both {
            None
        } else {
            e.rules()[exe].up_bps
        },
        m.down_bps == if e.shaper && e.ebpf_ingress && m.scope == Scope::Both {
            None
        } else {
            e.rules()[exe].down_bps
        },
    ensures
        e.nft_plan().len() == 1,
        e.nft_plan()[0] is LoadRules,
        exists|before: Seq<char>, after: Seq<char>|
            e.nft_plan()[0]->LoadRules_script == #[trigger] (before + rule_lines(m) + after),
{
    let r = e.rules()[exe];
    law_every_rule_is_gone_through(e, exe);
    let k = choose|k: int| 0 <= k < e.in_order().len() && e.in_order()[k] == r;
    assert(e.filter_rules()[k] == policed(r, e.shaper, e.shapes_down()));
    assert(m == policed(r, e.shaper, e.shapes_down()));
    law_script_holds_every_rule(e.filter_rules(), k);
}

/// While the limiter is on, a blocked application is dropped in both directions by the
/// packet filter, whatever its caps are.
pub proof fn law_blocked_traffic_is_dropped(e: Engine, exe: Seq<char>, group: Seq<char>)
    requires
        e.wf(),
        e.limiter.enabled,
        e.rules().dom().contains(exe),
        e.rules()[exe].blocked,
        group == "curb"@ + "/"@ + e.rules()[exe].dir,
    ensures
        e.nft_plan().len() == 1,
        e.nft_plan()[0] is LoadRules,
        exists|before: Seq<char>, after: Seq<char>|
            e.nft_plan()[0]->LoadRules_script == #[trigger] (before + (
            "add rule inet curb input socket cgroupv2 level 2 \""@ + group + "\" drop\n"@
                + "add rule inet curb output socket cgroupv2 level 2 \""@ + group + "\" drop\n"@)
                + after),
{
    let r = e.rules()[exe];
    let m = RuleModel {
        group,
        down_bps: if e.shaper && e.ebpf_ingress && r.scope == Scope::Both {
            None
        } else {
            r.down_bps
        },
        up_bps: if e.shaper && r.scope == Scope::Both {
            None
        } else {
            r.up_bps
        },
        scope: r.scope,
        blocked: true,
    };
    law_rest_is_policed(e, exe, m);
    law_blocked_application_is_dropped(m);
}

/// While the limiter is off, or where no application has a rule, the rule set of the
/// packet filter is removed.
pub proof fn law_without_rules_no_rule_set(e: Engine)
    ensures
        !e.limiter.enabled || e.apps.entries@.len() == 0 ==> e.nft_plan() == seq![
            StepModel::DropRules,
        ],
{
}

/// Inbound traffic of the interface is sent to the intermediate device as the last step,
/// once everything on it is built, wherever downloads of the host are capped.
pub proof fn law_inbound_traffic_is_redirected(e: Engine)
    requires
        e.limiter.enabled,
        e.limiter.host.down_bps is Some || e.limiter.host.lan.down_bps is Some
            || e.limiter.host.internet.down_bps is Some,
    ensures
        ({
            let p = e.ingress_plan();
            let dev = e.limiter.interface@;
            let n = p.len() as int;
            &&& p[n - 1] is Run
            &&& p[n - 1]->Run_tool == Tool::Tc
            &&& e.shapes_down() ==> p[n - 1]->Run_args == seq![
                "filter"@,
                "add"@,
                "dev"@,
                dev,
                "ingress"@,
                "pref"@,
                "2"@,
                "matchall"@,
                "action"@,
                "mirred"@,
                "egress"@,
                "redirect"@,
                "dev"@,
                "ifbcurb"@,
            ]
            &&& !e.shapes_down() ==> p[n - 2] is Run && p[n - 2]->Run_tool == Tool::Tc
                && p[n - 2]->Run_args == seq![
                "qdisc"@,
                "add"@,
                "dev"@,
                dev,
                "handle"@,
                "ffff:"@,
                "ingress"@,
            ] && p[n - 1]->Run_args == seq![
                "filter"@,
                "add"@,
                "dev"@,
                dev,
                "parent"@,
                "ffff:"@,
                "protocol"@,
                "all"@,
                "u32"@,
                "match"@,
                "u32"@,
                "0"@,
                "0"@,
                "action"@,
                "mirred"@,
                "egress"@,
                "redirect"@,
                "dev"@,
                "ifbcurb"@,
            ]
        }),
{
    let p = e.ingress_plan();
    let dev = e.limiter.interface@;
    let n = p.len() as int;
    if e.shapes_down() {
        assert(p[n - 1] == redirect_add(dev, "ifbcurb"@)[0].within(
            "adding mirred ingress redirect"@,
        ));
    } else {
        let context = "building scoped host download shaping"@;
        assert(p[n - 1] == legacy_redirect(dev, "ifbcurb"@)[1].within(context));
        assert(p[n - 2] == legacy_redirect(dev, "ifbcurb"@)[0].within(context));
    }
}

/// Before anything is built, what an earlier plan built is taken down: the root queue
/// of the interface, the redirect, and the intermediate device with its queue.
pub proof fn law_plans_start_afresh(e: Engine)
    ensures
        ({
            let dev = e.limiter.interface@;
            let out = e.egress_plan();
            let p = e.ingress_plan();
            &&& out[0] == (StepModel::Try {
                tool: Tool::Tc,
                args: seq!["qdisc"@, "del"@, "dev"@, dev, "root"@],
            })
            &&& e.shaper ==> out[1] == StepModel::ClearClasses
            &&& p[0] == (StepModel::Try {
                tool: Tool::Tc,
                args: seq!["filter"@, "del"@, "dev"@, dev, "ingress"@, "pref"@, "2"@],
            })
            &&& p[1] == (StepModel::Try {
                tool: Tool::Tc,
                args: seq!["qdisc"@, "del"@, "dev"@, "ifbcurb"@, "root"@],
            })
            &&& p[2] == (StepModel::Try {
                tool: Tool::Ip,
                args: seq!["link"@, "del"@, "ifbcurb"@],
            })
        }),
{
}

/// Where nothing caps downloads, the inbound plan builds nothing.
pub proof fn law_no_download_cap_no_shaping(e: Engine)
    requires
        e.limiter.host.down_bps is None,
        e.limiter.host.lan.down_bps is None,
        e.limiter.host.internet.down_bps is None,
        forall|i: int| 0 <= i < e.in_order().len() ==> (#[trigger] e.in_order()[i]).down_bps is None,
    ensures
        e.ingress_plan().len() == 3,
        forall|i: int|
            0 <= i < e.ingress_plan().len() ==> (#[trigger] e.ingress_plan()[i]).only_removes(),
{
    lemma_no_down_classes(e.in_order());
}

proof fn lemma_no_down_classes(rules: Seq<Rule>)
    requires
        forall|i: int| 0 <= i < rules.len() ==> (#[trigger] rules[i]).down_bps is None,
    ensures
        down_classes(rules).len() == 0,
    decreases rules.len(),
{
    if rules.len() > 0 {
        let rest = rules.drop_last();
        assert forall|i: int| 0 <= i < rest.len() implies (#[trigger] rest[i]).down_bps is None by {
            assert(rest[i] == rules[i]);
        }
        lemma_no_down_classes(rest);
        assert(rules.last() == rules[rules.len() - 1]);
    }
}

/// Bringing the whole state onto the kernel takes every step for outbound traffic, then
/// every step for inbound traffic, then the rule set of the packet filter, and no other.
pub proof fn law_full_plan_is_complete(e: Engine, i: int)
    ensures
        0 <= i < e.egress_plan().len() ==> e.full_plan()[i] == e.egress_plan()[i],
        0 <= i < e.ingress_plan().len() ==> e.full_plan()[e.egress_plan().len() + i]
            == e.ingress_plan()[i],
        e.full_plan().last() == e.nft_plan()[0],
        e.full_plan().len() == e.egress_plan().len() + e.ingress_plan().len() + 1,
{
}

/// Shutting down removes the group of every application, the base of the groups, the rule
/// set of the packet filter, the queues of the interface and the intermediate device.
pub proof fn law_shutdown_removes_everything(e: Engine, exe: Seq<char>)
    requires
        e.wf(),
    ensures
        ({
            let p = e.shutdown_plan();
            let dev = e.limiter.interface@;
            &&& e.rules().dom().contains(exe) ==> p.contains(
                StepModel::RemoveGroup { dir: e.rules()[exe].dir },
            )
            &&& p.last() == StepModel::RemoveBase
            &&& p.contains(StepModel::DropRules)
            &&& p.contains(
                StepModel::Try {
                    tool: Tool::Tc,
                    args: seq!["qdisc"@, "del"@, "dev"@, dev, "root"@],
                },
            )
            &&& p.contains(
                StepModel::Try {
                    tool: Tool::Tc,
                    args: seq!["qdisc"@, "del"@, "dev"@, dev, "ingress"@],
                },
            )
            &&& p.contains(
                StepModel::Try {
                    tool: Tool::Tc,
                    args: seq!["qdisc"@, "del"@, "dev"@, dev, "clsact"@],
                },
            )
            &&& p.contains(
                StepModel::Try { tool: Tool::Ip, args: seq!["link"@, "del"@, "ifbcurb"@] },
            )
        }),
{
    let p = e.shutdown_plan();
    let dev = e.limiter.interface@;
    if e.rules().dom().contains(exe) {
        law_every_rule_is_gone_through(e, exe);
        let k = choose|k: int| 0 <= k < e.in_order().len() && e.in_order()[k] == e.rules()[exe];
        assert(p[9 + k] == StepModel::RemoveGroup { dir: e.rules()[exe].dir });
    }
    assert(p[8] == StepModel::DropRules);
    assert(p[0] == StepModel::Try {
        tool: Tool::Tc,
        args: seq!["qdisc"@, "del"@, "dev"@, dev, "root"@],
    });
    assert(p[2] == StepModel::Try {
        tool: Tool::Tc,
        args: seq!["qdisc"@, "del"@, "dev"@, dev, "ingress"@],
    });
    assert(p[7] == StepModel::Try {
        tool: Tool::Tc,
        args: seq!["qdisc"@, "del"@, "dev"@, dev, "clsact"@],
    });
    assert(p[4] == StepModel::Try { tool: Tool::Ip, args: seq!["link"@, "del"@, "ifbcurb"@] });
}

/// A new rule caps nothing, on all remote addresses, and blocks nothing.
pub proof fn law_new_rule_has_no_effect(exe: Seq<char>, minor: u16)
    ensures
        ({
            let r = Rule::idle(exe, minor);
            &&& r.down_bps is None
            &&& r.up_bps is None
            &&& r.scope == Scope::Both
            &&& !r.blocked
            &&& r.minor == minor
            &&& r.is_idle()
        }),
        forall|r: Rule| #[trigger] r.is_idle() ==> r.down_bps is None && r.up_bps is None
            && !r.blocked,
{
}

/// Blocking an application orders, before anything else, a rule set that drops its
/// traffic in both directions, and then moves its processes to its group.
pub proof fn law_block_is_ordered(
    before: Engine,
    exe: Seq<char>,
    group: Result<(), String>,
    after: Engine,
    r: Result<Vec<Step>, String>,
    name: Seq<char>,
)
    requires
        after.wf(),
        blocked_to(before, exe, true, group, after, r),
        r is Ok,
        name == "curb"@ + "/"@ + after.rules()[exe].dir,
    ensures
        after.limiter.enabled,
        ({
            let p = plan(r->Ok_0@);
            &&& p.len() == 2
            &&& p[0] is LoadRules
            &&& exists|head: Seq<char>, tail: Seq<char>|
                p[0]->LoadRules_script == #[trigger] (head + (
                "add rule inet curb input socket cgroupv2 level 2 \""@ + name + "\" drop\n"@
                    + "add rule inet curb output socket cgroupv2 level 2 \""@ + name
                    + "\" drop\n"@) + tail)
            &&& p[1] == StepModel::PlaceProcesses
        }),
{
    assert(after.rules().dom().contains(exe));
    assert(after.rules()[exe].blocked);
    law_blocked_traffic_is_dropped(after, exe, name);
}

/// A block fails only where the application has no rule yet and its group cannot be
/// created; it then changes nothing and says why.
pub proof fn law_block_fails_only_without_group(
    before: Engine,
    exe: Seq<char>,
    blocked: bool,
    group: Result<(), String>,
    after: Engine,
    r: Result<Vec<Step>, String>,
)
    requires
        blocked_to(before, exe, blocked, group, after, r),
    ensures
        r is Err <==> blocked && group is Err && !before.rules().dom().contains(exe),
        r is Err ==> after.rules() == before.rules() && after.limiter == before.limiter
            && r->Err_0@ == creation_text(group->Err_0@),
{
}

/// Lifting the block of an application that has no caps drops its rule and its group;
/// with caps, the rule stays with these.
pub proof fn law_lifted_block_leaves_the_caps(
    before: Engine,
    exe: Seq<char>,
    group: Result<(), String>,
    after: Engine,
    r: Result<Vec<Step>, String>,
)
    requires
        blocked_to(before, exe, false, group, after, r),
        before.rules().dom().contains(exe),
    ensures
        ({
            let was = before.rules()[exe];
            let capped = was.down_bps is Some || was.up_bps is Some;
            &&& after.rules().dom().contains(exe) <==> capped
            &&& capped ==> !after.rules()[exe].blocked && after.rules()[exe].down_bps
                == was.down_bps && after.rules()[exe].up_bps == was.up_bps
                && after.rules()[exe].scope == was.scope && after.rules()[exe].minor == was.minor
                && after.rules()[exe].dir == was.dir
            &&& !capped ==> plan(r->Ok_0@).last() == (StepModel::RemoveGroup { dir: was.dir })
        }),
{
}

/// What a failure to create a group is told as.
pub proof fn law_failed_group_is_told(e: Seq<char>)
    ensures
        creation_text(e) == "creating app cgroup: "@ + e,
{
}

/// Operations on applications leave the caps of the host, its interface and the
/// classifier alone.
pub proof fn law_same_host_is_the_same(a: Engine, b: Engine)
    requires
        a.same_host(&b),
    ensures
        a.limiter.host == b.limiter.host,
        a.limiter.interface == b.limiter.interface,
        a.shaper == b.shaper,
        a.ebpf_ingress == b.ebpf_ingress,
{
}

/// Every rule is listed once, by its own path, with its name, its caps, its scope and
/// the number of processes in its group, and the list is in the order of names.
pub proof fn law_listing_is_complete(
    e: Engine,
    out: Seq<AppLimit>,
    pids: Seq<u32>,
    k: int,
)
    requires
        lists_limits(out, e.apps.entries@, pids),
        0 <= k < e.apps.entries@.len(),
    ensures
        out.len() == e.apps.entries@.len(),
        exists|i: int|
            {
                &&& 0 <= i < out.len()
                &&& (#[trigger] out[i]).exe@ == e.apps.entries@[k].0@
                &&& out[i].name@ == e.apps.entries@[k].1.name@
                &&& out[i].down_bps == e.apps.entries@[k].1.down_bps
                &&& out[i].up_bps == e.apps.entries@[k].1.up_bps
                &&& out[i].scope == e.apps.entries@[k].1.scope
                &&& out[i].pids == pids[k]
            },
        forall|i: int, j: int|
            0 <= i < j < out.len() ==> name_le(#[trigger] out[i].name@, #[trigger] out[j].name@),
{
    let entries = e.apps.entries@;
    let p = choose|p: Seq<int>| #[trigger] lists_in_order(out, entries, pids, p);
    assert(p.contains(k));
    let i = choose|i: int| 0 <= i < p.len() && p[i] == k;
    assert(out[i].exe@ == entries[k].0@);
}

/// The rules are what the entries hold.
pub proof fn law_rules_are_what_is_kept(e: Engine, exe: Seq<char>)
    ensures
        e.rules().dom().contains(exe) <==> e.apps@.dom().contains(exe),
        e.rules().dom().contains(exe) ==> {
            let (r, s) = (e.rules()[exe], e.apps@[exe]);
            &&& r.name == s.name@
            &&& r.dir == s.dir@
            &&& r.down_bps == s.down_bps
            &&& r.up_bps == s.up_bps
            &&& r.scope == s.scope
            &&& r.blocked == s.blocked
            &&& r.minor == s.minor
        },
{
}

/// Blocking or unblocking an application leaves the rules of all others as they are.
pub proof fn law_block_touches_one_rule(
    before: Engine,
    exe: Seq<char>,
    blocked: bool,
    group: Result<(), String>,
    after: Engine,
    r: Result<Vec<Step>, String>,
    other: Seq<char>,
)
    requires
        blocked_to(before, exe, blocked, group, after, r),
        other != exe,
    ensures
        after.rules().dom().contains(other) <==> before.rules().dom().contains(other),
        before.rules().dom().contains(other) ==> after.rules()[other] == before.rules()[other],
{
}

/// Unblocking an application that has no rule does nothing.
pub proof fn law_nothing_to_unblock(
    before: Engine,
    exe: Seq<char>,
    group: Result<(), String>,
    after: Engine,
    r: Result<Vec<Step>, String>,
)
    requires
        blocked_to(before, exe, false, group, after, r),
        !before.rules().dom().contains(exe),
    ensures
        r is Ok,
        plan(r->Ok_0@).len() == 0,
        after.rules() == before.rules(),
        after.limiter == before.limiter,
{
}

/// A block keeps the limiter on or switches it on, and a lifted block leaves the switch
/// as it is.
pub proof fn law_block_and_switch(
    before: Engine,
    exe: Seq<char>,
    blocked: bool,
    group: Result<(), String>,
    after: Engine,
    r: Result<Vec<Step>, String>,
)
    requires
        blocked_to(before, exe, blocked, group, after, r),
        r is Ok,
    ensures
        blocked ==> after.limiter.enabled,
        !blocked ==> after.limiter.enabled == before.limiter.enabled,
{
}

/// Steps are taken as they are given.
pub proof fn law_steps_are_taken_as_given(v: Seq<Step>, i: int)
    requires
        0 <= i < v.len(),
    ensures
        plan(v).len() == v.len(),
        match v[i] {
            Step::Run { tool, args, context } => plan(v)[i] is Run && plan(v)[i]->Run_tool == tool
                && plan(v)[i]->Run_args == args.deep_view() && plan(v)[i]->Run_context == context@,
            Step::Try { tool, args } => plan(v)[i] is Try && plan(v)[i]->Try_tool == tool && plan(
                v,
            )[i]->Try_args == args.deep_view(),
            Step::ClearClasses => plan(v)[i] is ClearClasses,
            Step::MapClass { dir, classid } => plan(v)[i] is MapClass && plan(v)[i]->MapClass_dir
                == dir@ && plan(v)[i]->classid == classid,
            Step::LoadRules { script, context } => plan(v)[i] is LoadRules && plan(
                v,
            )[i]->LoadRules_script == script@ && plan(v)[i]->LoadRules_context == context@,
            Step::DropRules => plan(v)[i] is DropRules,
            Step::RemoveGroup { dir } => plan(v)[i] is RemoveGroup && plan(v)[i]->RemoveGroup_dir
                == dir@,
            Step::RemoveBase => plan(v)[i] is RemoveBase,
            Step::PlaceProcesses => plan(v)[i] is PlaceProcesses,
        },
{
}

} // verus!
