//! Queueing disciplines, classes and filters, as commands of `tc` and `ip`.
//!
//! Rates are handed to `tc` in bytes per second with its suffix `bps`, which in
//! its grammar stands for bytes and not for bits.
//!
//! The classes under the root `1:` are `1:1` with the total cap, below it `1:2`
//! for the local network, `1:3` for everything else (the default), and from
//! `1:10` on one for each application.

use vstd::prelude::*;

use crate::engine::step::{
    add_step, attempt, carried, extend, law_first_failure_ends, plan, run, texts, within,
};
use crate::engine::step::{Step, StepModel, Tool};
use crate::number::{dec, decimal, hex, numeral};
use crate::text::{lines, same, split_whitespace, strings, text_lines, words};

verus! {

/// The rate that stands for "unlimited", about eighty gigabits per second.
pub const LINE_RATE_BPS: u64 = 10_000_000_000;

/// Preference of the filter that redirects inbound traffic. It runs after the
/// classifier, whose preference is 1.
pub const INGRESS_REDIRECT_PRIO: &'static str = "2";

// ---- Locating the tools ------------------------------------------------------

/// The places where a tool may be installed, in order.
pub open spec fn tool_paths(name: Seq<char>) -> Seq<Seq<char>> {
    seq!["/sbin/"@ + name, "/usr/sbin/"@ + name, "/usr/bin/"@ + name, "/bin/"@ + name]
}

fn prefixed(dir: &str, name: &str) -> (r: String)
    ensures
        r@ == dir@ + name@,
{
    let mut r: String = dir.to_string();
    r.append(name);
    r
}

/// The places where a tool may be installed.
pub fn bin_paths(name: &str) -> (r: Vec<String>)
    ensures
        r.deep_view() == tool_paths(name@),
{
    let r: Vec<String> = vec![
        prefixed("/sbin/", name),
        prefixed("/usr/sbin/", name),
        prefixed("/usr/bin/", name),
        prefixed("/bin/", name),
    ];
    assert(r.deep_view() =~= tool_paths(name@));
    r
}

/// The first path that is present, or the bare name, which is then looked up by
/// the system.
pub open spec fn first_present(
    paths: Seq<Seq<char>>,
    present: Seq<bool>,
    name: Seq<char>,
) -> Seq<char>
    decreases paths.len(),
{
    if paths.len() == 0 || present.len() == 0 {
        name
    } else if present[0] {
        paths[0]
    } else {
        first_present(paths.skip(1), present.skip(1), name)
    }
}

/// Choose where to run a tool from, given which of the paths are present.
pub fn bin(paths: &Vec<String>, present: &Vec<bool>, name: &str) -> (r: String)
    requires
        paths@.len() == present@.len(),
    ensures
        r@ == first_present(paths.deep_view(), present@, name@),
{
    let ghost all = paths.deep_view();
    assert(all.skip(0) =~= all);
    assert(present@.skip(0) =~= present@);
    for i in 0..paths.len()
        invariant
            all == paths.deep_view(),
            paths@.len() == present@.len(),
            first_present(all, present@, name@) == first_present(
                all.skip(i as int),
                present@.skip(i as int),
                name@,
            ),
    {
        assert(all.skip(i as int)[0] == paths@[i as int]@);
        assert(present@.skip(i as int)[0] == present@[i as int]);
        if present[i] {
            return paths[i].clone();
        }
        assert(all.skip(i as int).skip(1) =~= all.skip(i + 1));
        assert(present@.skip(i as int).skip(1) =~= present@.skip(i + 1));
    }
    name.to_string()
}

// ---- The default route -------------------------------------------------------

/// The word after the first `dev` from the index `i` on.
pub open spec fn device_after(w: Seq<Seq<char>>, i: int) -> Option<Seq<char>>
    decreases w.len() - i,
{
    if i < 0 || i >= w.len() {
        None
    } else if w[i] == "dev"@ {
        if i + 1 < w.len() {
            Some(w[i + 1])
        } else {
            None
        }
    } else {
        device_after(w, i + 1)
    }
}

/// The device of the first line that names one.
pub open spec fn first_device(body: Seq<Seq<char>>) -> Option<Seq<char>>
    decreases body.len(),
{
    if body.len() == 0 {
        None
    } else {
        match device_after(words(body[0]), 0) {
            Some(d) => Some(d),
            None => first_device(body.skip(1)),
        }
    }
}

fn line_device(line: &str) -> (r: Option<String>)
    ensures
        match r {
            Some(d) => device_after(words(line@), 0) == Some(d@),
            None => device_after(words(line@), 0) is None,
        },
{
    let w: Vec<String> = split_whitespace(line);
    let ghost ws = words(line@);
    assert(w.deep_view() == ws);
    for i in 0..w.len()
        invariant
            w.deep_view() == ws,
            ws == words(line@),
            device_after(ws, 0) == device_after(ws, i as int),
    {
        assert(ws[i as int] == w@[i as int]@);
        if same(w[i].as_str(), "dev") {
            if i + 1 < w.len() {
                assert(ws[i + 1] == w@[i + 1]@);
                return Some(w[i + 1].clone());
            }
            return None;
        }
    }
    None
}

/// Read the interface of the default route from a listing of the default routes.
pub fn default_interface(listing: &str) -> (r: Option<String>)
    ensures
        match r {
            Some(d) => first_device(text_lines(listing@)) == Some(d@),
            None => first_device(text_lines(listing@)) is None,
        },
{
    let all: Vec<String> = lines(listing);
    let ghost body = text_lines(listing@);
    assert(all.deep_view() == body);
    assert(body.skip(0) =~= body);
    for i in 0..all.len()
        invariant
            all.deep_view() == body,
            body == text_lines(listing@),
            first_device(body) == first_device(body.skip(i as int)),
    {
        assert(body.skip(i as int)[0] == all@[i as int]@);
        assert(body.skip(i as int).skip(1) =~= body.skip(i + 1));
        match line_device(all[i].as_str()) {
            Some(d) => {
                return Some(d);
            },
            None => {},
        }
    }
    None
}

// ---- Commands ----------------------------------------------------------------

/// A rate in bytes per second.
pub open spec fn rate_text(bps: u64) -> Seq<char> {
    decimal(bps as nat) + "bps"@
}

/// The class of an application.
pub open spec fn app_classid(minor: u16) -> Seq<char> {
    "1:"@ + numeral(minor as nat, 16)
}

/// Add the root queue of a device.
pub open spec fn root_qdisc(dev: Seq<char>, default_class: Seq<char>) -> StepModel {
    StepModel::run(
        Tool::Tc,
        seq![
            "qdisc"@,
            "add"@,
            "dev"@,
            dev,
            "root"@,
            "handle"@,
            "1:"@,
            "htb"@,
            "default"@,
            default_class,
        ],
    )
}

/// Add a class with a guaranteed rate and a ceiling.
pub open spec fn class_add(
    dev: Seq<char>,
    parent: Seq<char>,
    classid: Seq<char>,
    rate: u64,
    ceil: u64,
) -> StepModel {
    StepModel::run(
        Tool::Tc,
        seq![
            "class"@,
            "add"@,
            "dev"@,
            dev,
            "parent"@,
            parent,
            "classid"@,
            classid,
            "htb"@,
            "rate"@,
            rate_text(rate),
            "ceil"@,
            rate_text(ceil),
        ],
    )
}

/// The local IPv4 ranges: loopback, private, link-local and shared.
pub open spec fn v4_lan() -> Seq<Seq<char>> {
    seq![
        "127.0.0.0/8"@,
        "10.0.0.0/8"@,
        "172.16.0.0/12"@,
        "192.168.0.0/16"@,
        "169.254.0.0/16"@,
        "100.64.0.0/10"@,
    ]
}

/// The local IPv6 ranges: loopback, unique local and link-local.
pub open spec fn v6_lan() -> Seq<Seq<char>> {
    seq!["::1/128"@, "fc00::/7"@, "fe80::/10"@]
}

/// Send traffic of a local range to the class of the local network.
pub open spec fn lan_filter(
    dev: Seq<char>,
    protocol: Seq<char>,
    matcher: Seq<char>,
    field: Seq<char>,
    cidr: Seq<char>,
) -> StepModel {
    StepModel::run(
        Tool::Tc,
        seq![
            "filter"@,
            "add"@,
            "dev"@,
            dev,
            "parent"@,
            "1:"@,
            "protocol"@,
            protocol,
            "prio"@,
            "1"@,
            "u32"@,
            "match"@,
            matcher,
            field,
            cidr,
            "flowid"@,
            "1:2"@,
        ],
    )
}

/// The filters of all local ranges.
pub open spec fn lan_filters(dev: Seq<char>, field: Seq<char>) -> Seq<StepModel> {
    v4_lan().map_values(|c: Seq<char>| lan_filter(dev, "ip"@, "ip"@, field, c))
        + v6_lan().map_values(|c: Seq<char>| lan_filter(dev, "ipv6"@, "ip6"@, field, c))
}

/// A cap, or what stands for it where there is none.
pub open spec fn or_else(cap: Option<u64>, other: u64) -> u64 {
    match cap {
        Some(c) => c,
        None => other,
    }
}

/// The classes of applications under the total cap.
pub open spec fn app_classes(dev: Seq<char>, total: u64, apps: Seq<(u16, u64)>) -> Seq<StepModel> {
    apps.map_values(
        |a: (u16, u64)| class_add(dev, "1:1"@, app_classid(a.0), a.1, total),
    )
}

/// The whole tree of a device: the total cap, below it the classes of the local
/// network, of everything else and of the applications, and the filters.
pub open spec fn tree(
    dev: Seq<char>,
    field: Seq<char>,
    total: Option<u64>,
    lan: Option<u64>,
    inet: Option<u64>,
    apps: Seq<(u16, u64)>,
) -> Seq<StepModel> {
    let all = or_else(total, LINE_RATE_BPS);
    seq![
        root_qdisc(dev, "3"@),
        class_add(dev, "1:"@, "1:1"@, all, all),
        class_add(dev, "1:1"@, "1:2"@, or_else(lan, all), all),
        class_add(dev, "1:1"@, "1:3"@, or_else(inet, all), all),
    ] + app_classes(dev, all, apps) + lan_filters(dev, field)
}

fn rate(bps: u64) -> (r: String)
    ensures
        r@ == rate_text(bps),
{
    let mut r: String = dec(bps);
    r.append("bps");
    r
}

fn classid_of(minor: u16) -> (r: String)
    ensures
        r@ == app_classid(minor),
{
    let mut r: String = "1:".to_string();
    let h: String = hex(minor as u64);
    r.append(h.as_str());
    r
}

fn add_root(dev: &str, default_class: &str) -> (r: Step)
    ensures
        r@ == root_qdisc(dev@, default_class@),
{
    let w: [&str; 10] = [
        "qdisc",
        "add",
        "dev",
        dev,
        "root",
        "handle",
        "1:",
        "htb",
        "default",
        default_class,
    ];
    let s: Step = run(Tool::Tc, &w);
    assert(s@ == root_qdisc(dev@, default_class@)) by {
        assert(texts(w@) =~= root_qdisc(dev@, default_class@)->Run_args);
    }
    s
}

fn add_class(dev: &str, parent: &str, classid: &str, rate_bps: u64, ceil_bps: u64) -> (r: Step)
    ensures
        r@ == class_add(dev@, parent@, classid@, rate_bps, ceil_bps),
{
    let rate_s: String = rate(rate_bps);
    let ceil_s: String = rate(ceil_bps);
    let w: [&str; 13] = [
        "class",
        "add",
        "dev",
        dev,
        "parent",
        parent,
        "classid",
        classid,
        "htb",
        "rate",
        rate_s.as_str(),
        "ceil",
        ceil_s.as_str(),
    ];
    let s: Step = run(Tool::Tc, &w);
    assert(texts(w@) =~= class_add(dev@, parent@, classid@, rate_bps, ceil_bps)->Run_args);
    s
}

fn add_lan_filter(dev: &str, protocol: &str, matcher: &str, field: &str, cidr: &str) -> (r: Step)
    ensures
        r@ == lan_filter(dev@, protocol@, matcher@, field@, cidr@),
{
    let w: [&str; 17] = [
        "filter",
        "add",
        "dev",
        dev,
        "parent",
        "1:",
        "protocol",
        protocol,
        "prio",
        "1",
        "u32",
        "match",
        matcher,
        field,
        cidr,
        "flowid",
        "1:2",
    ];
    let s: Step = run(Tool::Tc, &w);
    assert(texts(w@) =~= lan_filter(dev@, protocol@, matcher@, field@, cidr@)->Run_args);
    s
}

/// Send packets whose remote address is local to the class of the local network.
/// The remote address is `dst` in outbound and `src` in inbound traffic.
pub fn add_lan_filters(dev: &str, field: &str) -> (r: Vec<Step>)
    ensures
        plan(r@) == lan_filters(dev@, field@),
{
    let v4: Vec<String> = strings(
        &[
            "127.0.0.0/8",
            "10.0.0.0/8",
            "172.16.0.0/12",
            "192.168.0.0/16",
            "169.254.0.0/16",
            "100.64.0.0/10",
        ],
    );
    let v6: Vec<String> = strings(&["::1/128", "fc00::/7", "fe80::/10"]);
    assert(v4.deep_view() =~= v4_lan());
    assert(v6.deep_view() =~= v6_lan());
    let ghost f4 = v4_lan().map_values(
        |c: Seq<char>| lan_filter(dev@, "ip"@, "ip"@, field@, c),
    );
    let ghost f6 = v6_lan().map_values(
        |c: Seq<char>| lan_filter(dev@, "ipv6"@, "ip6"@, field@, c),
    );
    let mut r: Vec<Step> = Vec::new();
    assert(plan(r@) =~= f4.take(0));
    for i in 0..v4.len()
        invariant
            v4.deep_view() == v4_lan(),
            f4 == v4_lan().map_values(|c: Seq<char>| lan_filter(dev@, "ip"@, "ip"@, field@, c)),
            plan(r@) == f4.take(i as int),
    {
        assert(v4_lan()[i as int] == v4@[i as int]@);
        let s: Step = add_lan_filter(dev, "ip", "ip", field, v4[i].as_str());
        add_step(&mut r, s);
        assert(plan(r@) =~= f4.take(i + 1));
    }
    assert(plan(r@) =~= f4 + f6.take(0));
    for i in 0..v6.len()
        invariant
            v6.deep_view() == v6_lan(),
            f6 == v6_lan().map_values(|c: Seq<char>| lan_filter(dev@, "ipv6"@, "ip6"@, field@, c)),
            plan(r@) == f4 + f6.take(i as int),
    {
        assert(v6_lan()[i as int] == v6@[i as int]@);
        let s: Step = add_lan_filter(dev, "ipv6", "ip6", field, v6[i].as_str());
        add_step(&mut r, s);
        assert(plan(r@) =~= f4 + f6.take(i + 1));
    }
    assert(f6.take(v6_lan().len() as int) =~= f6);
    r
}

/// Build the tree of a device. `field` tells where the remote address stands.
/// `apps` lists the class and the rate of each application that is shaped here.
pub fn build_tree(
    dev: &str,
    field: &str,
    total: Option<u64>,
    lan: Option<u64>,
    inet: Option<u64>,
    apps: &Vec<(u16, u64)>,
) -> (r: Vec<Step>)
    ensures
        plan(r@) == tree(dev@, field@, total, lan, inet, apps@),
{
    let all: u64 = match total {
        Some(t) => t,
        None => LINE_RATE_BPS,
    };
    let lan_rate: u64 = match lan {
        Some(t) => t,
        None => all,
    };
    let inet_rate: u64 = match inet {
        Some(t) => t,
        None => all,
    };
    let mut r: Vec<Step> = vec![
        add_root(dev, "3"),
        add_class(dev, "1:", "1:1", all, all),
        add_class(dev, "1:1", "1:2", lan_rate, all),
        add_class(dev, "1:1", "1:3", inet_rate, all),
    ];
    let ghost head = plan(r@);
    assert(head =~= seq![
        root_qdisc(dev@, "3"@),
        class_add(dev@, "1:"@, "1:1"@, all, all),
        class_add(dev@, "1:1"@, "1:2"@, lan_rate, all),
        class_add(dev@, "1:1"@, "1:3"@, inet_rate, all),
    ]);
    let ghost classes = app_classes(dev@, all, apps@);
    assert(plan(r@) =~= head + classes.take(0));
    for i in 0..apps.len()
        invariant
            classes == app_classes(dev@, all, apps@),
            plan(r@) == head + classes.take(i as int),
    {
        let classid: String = classid_of(apps[i].0);
        let s: Step = add_class(dev, "1:1", classid.as_str(), apps[i].1, all);
        add_step(&mut r, s);
        assert(plan(r@) =~= head + classes.take(i + 1));
    }
    assert(classes.take(apps@.len() as int) =~= classes);
    extend(&mut r, add_lan_filters(dev, field));
    r
}

/// Build the tree of outbound traffic on the interface.
pub fn build_egress_tree(
    iface: &str,
    total_up: Option<u64>,
    lan_up: Option<u64>,
    inet_up: Option<u64>,
    apps: &Vec<(u16, u64)>,
) -> (r: Vec<Step>)
    ensures
        plan(r@) == tree(iface@, "dst"@, total_up, lan_up, inet_up, apps@),
{
    build_tree(iface, "dst", total_up, lan_up, inet_up, apps)
}

/// Create the intermediate device, as far as it is not there yet.
pub open spec fn ifb_add(ifb: Seq<char>) -> StepModel {
    StepModel::attempt(Tool::Ip, seq!["link"@, "add"@, ifb, "type"@, "ifb"@])
}

/// Bring the intermediate device up.
pub open spec fn ifb_up(ifb: Seq<char>, context: Seq<char>) -> StepModel {
    StepModel::run(Tool::Ip, seq!["link"@, "set"@, "dev"@, ifb, "up"@]).within(context)
}

fn add_ifb(ifb: &str) -> (r: Step)
    ensures
        r@ == ifb_add(ifb@),
{
    let w: [&str; 5] = ["link", "add", ifb, "type", "ifb"];
    let s: Step = attempt(Tool::Ip, &w);
    assert(texts(w@) =~= ifb_add(ifb@)->Try_args);
    s
}

fn up_ifb(ifb: &str, context: &str) -> (r: Step)
    ensures
        r@ == ifb_up(ifb@, context@),
{
    let w: [&str; 5] = ["link", "set", "dev", ifb, "up"];
    let s: Step = run(Tool::Ip, &w);
    assert(texts(w@) =~= seq!["link"@, "set"@, "dev"@, ifb@, "up"@]);
    within(s, context)
}

/// Take inbound traffic of the interface to the intermediate device, by the queue
/// for inbound traffic.
pub open spec fn legacy_redirect(iface: Seq<char>, ifb: Seq<char>) -> Seq<StepModel> {
    seq![
        StepModel::run(
            Tool::Tc,
            seq!["qdisc"@, "add"@, "dev"@, iface, "handle"@, "ffff:"@, "ingress"@],
        ),
        StepModel::run(
            Tool::Tc,
            seq![
                "filter"@,
                "add"@,
                "dev"@,
                iface,
                "parent"@,
                "ffff:"@,
                "protocol"@,
                "all"@,
                "u32"@,
                "match"@,
                "u32"@,
                "0"@,
                "0"@,
                "action"@,
                "mirred"@,
                "egress"@,
                "redirect"@,
                "dev"@,
                ifb,
            ],
        ),
    ]
}

/// The steps of [`build_ingress_scoped`].
pub open spec fn ingress_scoped(
    iface: Seq<char>,
    ifb: Seq<char>,
    total: Option<u64>,
    lan: Option<u64>,
    inet: Option<u64>,
    apps: Seq<(u16, u64)>,
) -> Seq<StepModel> {
    scoped_tree(ifb, total, lan, inet, apps) + legacy_redirect(iface, ifb)
}

/// The tree of inbound traffic on the intermediate device, which is brought up first.
pub open spec fn scoped_tree(
    ifb: Seq<char>,
    total: Option<u64>,
    lan: Option<u64>,
    inet: Option<u64>,
    apps: Seq<(u16, u64)>,
) -> Seq<StepModel> {
    seq![ifb_add(ifb), ifb_up(ifb, "bringing up "@ + ifb)] + tree(
        ifb,
        "src"@,
        total,
        lan,
        inet,
        apps,
    )
}

/// Bring up the intermediate device and build the tree of inbound traffic on it.
pub fn build_scoped_tree(
    ifb: &str,
    total_down: Option<u64>,
    lan_down: Option<u64>,
    inet_down: Option<u64>,
    apps: &Vec<(u16, u64)>,
) -> (r: Vec<Step>)
    ensures
        plan(r@) == scoped_tree(ifb@, total_down, lan_down, inet_down, apps@),
{
    let context: String = prefixed("bringing up ", ifb);
    let mut r: Vec<Step> = vec![add_ifb(ifb), up_ifb(ifb, context.as_str())];
    assert(plan(r@) =~= seq![ifb_add(ifb@), ifb_up(ifb@, "bringing up "@ + ifb@)]);
    extend(&mut r, build_tree(ifb, "src", total_down, lan_down, inet_down, apps));
    r
}

/// Bring up the intermediate device, build the tree of inbound traffic on it and
/// redirect the inbound traffic of the interface to it.
pub fn build_ingress_scoped(
    iface: &str,
    ifb: &str,
    total_down: Option<u64>,
    lan_down: Option<u64>,
    inet_down: Option<u64>,
    apps: &Vec<(u16, u64)>,
) -> (r: Vec<Step>)
    ensures
        plan(r@) == ingress_scoped(iface@, ifb@, total_down, lan_down, inet_down, apps@),
{
    let mut r: Vec<Step> = build_scoped_tree(ifb, total_down, lan_down, inet_down, apps);
    let qdisc: [&str; 7] = ["qdisc", "add", "dev", iface, "handle", "ffff:", "ingress"];
    let filter: [&str; 19] = [
        "filter",
        "add",
        "dev",
        iface,
        "parent",
        "ffff:",
        "protocol",
        "all",
        "u32",
        "match",
        "u32",
        "0",
        "0",
        "action",
        "mirred",
        "egress",
        "redirect",
        "dev",
        ifb,
    ];
    let redirect: Vec<Step> = vec![run(Tool::Tc, &qdisc), run(Tool::Tc, &filter)];
    proof {
        let m = legacy_redirect(iface@, ifb@);
        assert(texts(qdisc@) =~= m[0]->Run_args);
        assert(texts(filter@) =~= m[1]->Run_args);
        assert(plan(redirect@) =~= m);
    }
    extend(&mut r, redirect);
    r
}

/// Remove the queue that holds the classifier.
pub open spec fn clsact_clear(iface: Seq<char>) -> Seq<StepModel> {
    seq![StepModel::attempt(Tool::Tc, seq!["qdisc"@, "del"@, "dev"@, iface, "clsact"@])]
}

/// Remove the queue that holds the classifier, which detaches it.
pub fn clear_clsact(iface: &str) -> (r: Vec<Step>)
    ensures
        plan(r@) == clsact_clear(iface@),
{
    let w: [&str; 5] = ["qdisc", "del", "dev", iface, "clsact"];
    let r: Vec<Step> = vec![attempt(Tool::Tc, &w)];
    assert(texts(w@) =~= clsact_clear(iface@)[0]->Try_args);
    assert(plan(r@) =~= clsact_clear(iface@));
    r
}

/// Redirect inbound traffic to the intermediate device on the hook of the
/// classifier.
pub open spec fn redirect_add(iface: Seq<char>, ifb: Seq<char>) -> Seq<StepModel> {
    seq![
        StepModel::run(
            Tool::Tc,
            seq![
                "filter"@,
                "add"@,
                "dev"@,
                iface,
                "ingress"@,
                "pref"@,
                INGRESS_REDIRECT_PRIO@,
                "matchall"@,
                "action"@,
                "mirred"@,
                "egress"@,
                "redirect"@,
                "dev"@,
                ifb,
            ],
        ),
    ]
}

/// Redirect inbound traffic to the intermediate device. The classifier runs at a
/// lower preference and has already seen the packet by then.
pub fn add_ingress_redirect(iface: &str, ifb: &str) -> (r: Vec<Step>)
    ensures
        plan(r@) == redirect_add(iface@, ifb@),
{
    let w: [&str; 14] = [
        "filter",
        "add",
        "dev",
        iface,
        "ingress",
        "pref",
        INGRESS_REDIRECT_PRIO,
        "matchall",
        "action",
        "mirred",
        "egress",
        "redirect",
        "dev",
        ifb,
    ];
    let r: Vec<Step> = vec![run(Tool::Tc, &w)];
    assert(texts(w@) =~= redirect_add(iface@, ifb@)[0]->Run_args);
    assert(plan(r@) =~= redirect_add(iface@, ifb@));
    r
}

/// Stop redirecting inbound traffic.
pub open spec fn redirect_del(iface: Seq<char>) -> Seq<StepModel> {
    seq![
        StepModel::attempt(
            Tool::Tc,
            seq![
                "filter"@,
                "del"@,
                "dev"@,
                iface,
                "ingress"@,
                "pref"@,
                INGRESS_REDIRECT_PRIO@,
            ],
        ),
    ]
}

/// Stop redirecting inbound traffic.
pub fn del_ingress_redirect(iface: &str) -> (r: Vec<Step>)
    ensures
        plan(r@) == redirect_del(iface@),
{
    let w: [&str; 7] = ["filter", "del", "dev", iface, "ingress", "pref", INGRESS_REDIRECT_PRIO];
    let r: Vec<Step> = vec![attempt(Tool::Tc, &w)];
    assert(texts(w@) =~= redirect_del(iface@)[0]->Try_args);
    assert(plan(r@) =~= redirect_del(iface@));
    r
}

/// The steps of [`ifb_root`].
pub open spec fn ifb_root_steps(ifb: Seq<char>, host_down: Option<u64>) -> Seq<StepModel> {
    let all = or_else(host_down, LINE_RATE_BPS);
    seq![
        ifb_add(ifb),
        ifb_up(ifb, "bringing up "@ + ifb + " (ifb module available?)"@),
        root_qdisc(ifb, "1"@),
        class_add(ifb, "1:"@, "1:1"@, all, all),
    ]
}

/// Bring up the intermediate device and build the root of its tree.
pub fn ifb_root(ifb: &str, host_down_bps: Option<u64>) -> (r: Vec<Step>)
    ensures
        plan(r@) == ifb_root_steps(ifb@, host_down_bps),
{
    let all: u64 = match host_down_bps {
        Some(t) => t,
        None => LINE_RATE_BPS,
    };
    let mut context: String = prefixed("bringing up ", ifb);
    context.append(" (ifb module available?)");
    let r: Vec<Step> = vec![
        add_ifb(ifb),
        up_ifb(ifb, context.as_str()),
        add_root(ifb, "1"),
        add_class(ifb, "1:", "1:1", all, all),
    ];
    assert(plan(r@) =~= ifb_root_steps(ifb@, host_down_bps));
    r
}

/// Add the inbound class of an application on the intermediate device.
pub fn ifb_app_class(ifb: &str, minor: u16, rate_bps: u64, ceil_bps: u64) -> (r: Vec<Step>)
    ensures
        plan(r@) == seq![class_add(ifb@, "1:"@, app_classid(minor), rate_bps, ceil_bps)],
{
    let classid: String = classid_of(minor);
    let r: Vec<Step> = vec![add_class(ifb, "1:", classid.as_str(), rate_bps, ceil_bps)];
    assert(plan(r@) =~= seq![class_add(ifb@, "1:"@, app_classid(minor), rate_bps, ceil_bps)]);
    r
}

/// Remove the root queue of a device.
pub open spec fn root_del(dev: Seq<char>) -> StepModel {
    StepModel::attempt(Tool::Tc, seq!["qdisc"@, "del"@, "dev"@, dev, "root"@])
}

/// Remove the intermediate device.
pub open spec fn ifb_del(ifb: Seq<char>) -> StepModel {
    StepModel::attempt(Tool::Ip, seq!["link"@, "del"@, ifb])
}

fn del_root(dev: &str) -> (r: Step)
    ensures
        r@ == root_del(dev@),
{
    let w: [&str; 5] = ["qdisc", "del", "dev", dev, "root"];
    let s: Step = attempt(Tool::Tc, &w);
    assert(texts(w@) =~= root_del(dev@)->Try_args);
    s
}

fn del_ifb(ifb: &str) -> (r: Step)
    ensures
        r@ == ifb_del(ifb@),
{
    let w: [&str; 3] = ["link", "del", ifb];
    let s: Step = attempt(Tool::Ip, &w);
    assert(texts(w@) =~= ifb_del(ifb@)->Try_args);
    s
}

/// Tear down the intermediate device.
pub fn ifb_clear(ifb: &str) -> (r: Vec<Step>)
    ensures
        plan(r@) == seq![root_del(ifb@), ifb_del(ifb@)],
{
    let r: Vec<Step> = vec![del_root(ifb), del_ifb(ifb)];
    assert(plan(r@) =~= seq![root_del(ifb@), ifb_del(ifb@)]);
    r
}

/// Remove the root queue of outbound traffic, which leaves the default of the
/// kernel.
pub fn clear_egress(iface: &str) -> (r: Vec<Step>)
    ensures
        plan(r@) == seq![root_del(iface@)],
{
    let r: Vec<Step> = vec![del_root(iface)];
    assert(plan(r@) =~= seq![root_del(iface@)]);
    r
}

/// Remove the queue of inbound traffic.
pub open spec fn ingress_del(iface: Seq<char>) -> StepModel {
    StepModel::attempt(Tool::Tc, seq!["qdisc"@, "del"@, "dev"@, iface, "ingress"@])
}

/// Remove the queue of inbound traffic and tear down the intermediate device.
pub fn clear_ingress(iface: &str, ifb: &str) -> (r: Vec<Step>)
    ensures
        plan(r@) == seq![ingress_del(iface@), root_del(ifb@), ifb_del(ifb@)],
{
    let w: [&str; 5] = ["qdisc", "del", "dev", iface, "ingress"];
    let r: Vec<Step> = vec![attempt(Tool::Tc, &w), del_root(ifb), del_ifb(ifb)];
    assert(texts(w@) =~= ingress_del(iface@)->Try_args);
    assert(plan(r@) =~= seq![ingress_del(iface@), root_del(ifb@), ifb_del(ifb@)]);
    r
}

/// The command whose success shows that an intermediate device can be had.
pub fn ifb_probe(ifb: &str) -> (r: Step)
    ensures
        r@ == StepModel::run(Tool::Ip, seq!["link"@, "add"@, ifb@, "type"@, "ifb"@]),
{
    let w: [&str; 5] = ["link", "add", ifb, "type", "ifb"];
    let s: Step = run(Tool::Ip, &w);
    assert(texts(w@) =~= seq!["link"@, "add"@, ifb@, "type"@, "ifb"@]);
    s
}

/// Whether an intermediate device can be had, from the success of the probe, and
/// the steps that remove what the probe created.
pub fn ifb_available(ifb: &str, created: bool) -> (r: (bool, Vec<Step>))
    ensures
        r.0 == created,
        plan(r.1@) == if created {
            seq![ifb_del(ifb@)]
        } else {
            Seq::empty()
        },
{
    let mut steps: Vec<Step> = Vec::new();
    assert(plan(steps@) =~= Seq::empty());
    if created {
        add_step(&mut steps, del_ifb(ifb));
        assert(plan(steps@) =~= seq![ifb_del(ifb@)]);
    }
    (created, steps)
}

// ---- Laws --------------------------------------------------------------------

/// Every command of a tree must succeed.
proof fn lemma_tree_must_succeed(
    dev: Seq<char>,
    field: Seq<char>,
    total: Option<u64>,
    lan: Option<u64>,
    inet: Option<u64>,
    apps: Seq<(u16, u64)>,
    i: int,
)
    requires
        0 <= i < tree(dev, field, total, lan, inet, apps).len(),
    ensures
        tree(dev, field, total, lan, inet, apps)[i].must_succeed(),
{
    let all = or_else(total, LINE_RATE_BPS);
    let classes = app_classes(dev, all, apps);
    let t = tree(dev, field, total, lan, inet, apps);
    let n = classes.len() as int;
    if i >= 4 {
        if i < 4 + n {
            assert(t[i] == classes[i - 4]);
        } else {
            let f = lan_filters(dev, field);
            assert(t[i] == f[i - 4 - n]);
            let k = i - 4 - n;
            if k < 6 {
                assert(f[k] == lan_filter(dev, "ip"@, "ip"@, field, v4_lan()[k]));
            } else {
                assert(f[k] == lan_filter(dev, "ipv6"@, "ip6"@, field, v6_lan()[k - 6]));
            }
        }
    }
}

/// Building a tree succeeds exactly if every command does, and nothing is run after
/// the first that fails.
pub proof fn law_tree_outcome(
    dev: Seq<char>,
    field: Seq<char>,
    total: Option<u64>,
    lan: Option<u64>,
    inet: Option<u64>,
    apps: Seq<(u16, u64)>,
    failures: Seq<Option<Seq<char>>>,
)
    requires
        failures.len() == tree(dev, field, total, lan, inet, apps).len(),
    ensures
        ({
            let (taken, r) = carried(tree(dev, field, total, lan, inet, apps), failures);
            &&& r is Ok <==> forall|i: int|
                0 <= i < failures.len() ==> (#[trigger] failures[i]) is None
            &&& forall|i: int| 0 <= i < taken - 1 ==> (#[trigger] failures[i]) is None
            &&& r is Err ==> failures[taken - 1] is Some
        }),
{
    let p = tree(dev, field, total, lan, inet, apps);
    assert forall|i: int| 0 <= i < p.len() implies (#[trigger] p[i]).must_succeed() by {
        lemma_tree_must_succeed(dev, field, total, lan, inet, apps, i);
    }
    lemma_outcome_from(p, failures, 0);
}

/// Of a plan in which every step from `from` on must succeed, and none before: it
/// succeeds exactly if all of these do, and nothing is run after the first that fails.
proof fn lemma_outcome_from(
    p: Seq<StepModel>,
    failures: Seq<Option<Seq<char>>>,
    from: int,
)
    requires
        failures.len() == p.len(),
        0 <= from <= p.len(),
        forall|i: int| 0 <= i < p.len() ==> ((#[trigger] p[i]).must_succeed() <==> i >= from),
    ensures
        ({
            let (taken, r) = carried(p, failures);
            &&& r is Ok <==> forall|i: int|
                from <= i < p.len() ==> (#[trigger] failures[i]) is None
            &&& r is Ok ==> taken == p.len()
            &&& forall|i: int| from <= i < taken - 1 ==> (#[trigger] failures[i]) is None
            &&& r is Err ==> from < taken <= p.len() && failures[taken - 1] is Some
        }),
{
    law_first_failure_ends(p, failures);
    let (taken, r) = carried(p, failures);
    assert forall|i: int| from <= i < taken - 1 implies (#[trigger] failures[i]) is None by {
        assert(p[i].must_succeed());
    }
    if r is Ok {
        assert forall|i: int| from <= i < p.len() implies (#[trigger] failures[i]) is None by {
            assert(p[i].must_succeed());
        }
    } else {
        let last = taken - 1;
        assert(p[last].must_succeed());
        assert(failures[last] is Some);
    }
}

/// Shaping inbound traffic succeeds exactly if every command but the first succeeds:
/// that the device cannot be created is ignored. Nothing is run after the first other
/// failure, so the redirect, which is the last command, is added only where the device
/// is up and its whole tree is built.
pub proof fn law_ingress_scoped_outcome(
    iface: Seq<char>,
    ifb: Seq<char>,
    total: Option<u64>,
    lan: Option<u64>,
    inet: Option<u64>,
    apps: Seq<(u16, u64)>,
    failures: Seq<Option<Seq<char>>>,
)
    requires
        failures.len() == ingress_scoped(iface, ifb, total, lan, inet, apps).len(),
    ensures
        ({
            let p = ingress_scoped(iface, ifb, total, lan, inet, apps);
            let (taken, r) = carried(p, failures);
            &&& p[0] == ifb_add(ifb)
            &&& p.last() == legacy_redirect(iface, ifb)[1]
            &&& r is Ok <==> forall|i: int|
                1 <= i < p.len() ==> (#[trigger] failures[i]) is None
            &&& r is Ok ==> taken == p.len()
            &&& forall|i: int| 1 <= i < taken - 1 ==> (#[trigger] failures[i]) is None
            &&& r is Err ==> 1 < taken <= p.len() && failures[taken - 1] is Some
        }),
{
    let p = ingress_scoped(iface, ifb, total, lan, inet, apps);
    let t = tree(ifb, "src"@, total, lan, inet, apps);
    let n = t.len() as int;
    assert forall|i: int| 0 <= i < p.len() implies ((#[trigger] p[i]).must_succeed() <==> i >= 1) by {
        if 2 <= i < 2 + n {
            assert(p[i] == t[i - 2]);
            lemma_tree_must_succeed(ifb, "src"@, total, lan, inet, apps, i - 2);
        } else if i >= 2 + n {
            assert(p[i] == legacy_redirect(iface, ifb)[i - 2 - n]);
        }
    }
    lemma_outcome_from(p, failures, 1);
}

/// Building the root of the intermediate device succeeds exactly if the last three
/// commands do, and nothing is run after the first of them that fails.
pub proof fn law_ifb_root_outcome(
    ifb: Seq<char>,
    host_down: Option<u64>,
    failures: Seq<Option<Seq<char>>>,
)
    requires
        failures.len() == 4,
    ensures
        ({
            let (taken, r) = carried(ifb_root_steps(ifb, host_down), failures);
            &&& r is Ok <==> failures[1] is None && failures[2] is None && failures[3] is None
            &&& r is Ok ==> taken == 4
            &&& failures[1] is Some ==> taken == 2
            &&& failures[1] is None && failures[2] is Some ==> taken == 3
            &&& r is Err ==> failures[taken - 1] is Some
        }),
{
    let p = ifb_root_steps(ifb, host_down);
    lemma_outcome_from(p, failures, 1);
    let (taken, r) = carried(p, failures);
    if failures[1] is None && failures[2] is None && failures[3] is None {
        assert forall|i: int| 1 <= i < 4 implies (#[trigger] failures[i]) is None by {}
    }
    if failures[1] is Some && taken > 2 {
        assert(failures[1] is None);
    }
    if failures[2] is Some && taken > 3 {
        assert(failures[2] is None);
    }
}

/// The device of the default route is that of the first line that names one: further
/// lines matter only where no line before them names a device.
pub proof fn law_first_named_device(a: Seq<Seq<char>>, b: Seq<Seq<char>>)
    ensures
        first_device(a) is Some ==> first_device(a + b) == first_device(a),
        first_device(a) is None ==> first_device(a + b) == first_device(b),
        first_device(Seq::empty()) is None,
    decreases a.len(),
{
    if a.len() == 0 {
        assert(a + b =~= b);
    } else {
        law_first_named_device(a.skip(1), b);
        assert((a + b).skip(1) =~= a.skip(1) + b);
        assert((a + b)[0] == a[0]);
    }
}

/// A line names the word behind its first `dev`.
pub proof fn law_device_follows_dev(line: Seq<char>, i: int)
    requires
        0 <= i < words(line).len(),
        words(line)[i] == "dev"@,
        forall|j: int| 0 <= j < i ==> #[trigger] words(line)[j] != "dev"@,
    ensures
        i + 1 < words(line).len() ==> first_device(seq![line]) == Some(words(line)[i + 1]),
        i + 1 == words(line).len() ==> first_device(seq![line]) is None,
{
    let w = words(line);
    lemma_device_from(w, 0, i);
    reveal_with_fuel(first_device, 2);
    assert(seq![line].skip(1) =~= Seq::<Seq<char>>::empty());
}

proof fn lemma_device_from(w: Seq<Seq<char>>, from: int, i: int)
    requires
        0 <= from <= i < w.len(),
        w[i] == "dev"@,
        forall|j: int| from <= j < i ==> #[trigger] w[j] != "dev"@,
    ensures
        device_after(w, from) == if i + 1 < w.len() {
            Some(w[i + 1])
        } else {
            None
        },
    decreases i - from,
{
    if from < i {
        lemma_device_from(w, from + 1, i);
    }
}

/// A line without `dev` names no device.
pub proof fn law_no_dev_no_device(line: Seq<char>)
    requires
        forall|j: int| 0 <= j < words(line).len() ==> #[trigger] words(line)[j] != "dev"@,
    ensures
        first_device(seq![line]) is None,
{
    lemma_no_device_from(words(line), 0);
    reveal_with_fuel(first_device, 2);
    assert(seq![line].skip(1) =~= Seq::<Seq<char>>::empty());
}

proof fn lemma_no_device_from(w: Seq<Seq<char>>, from: int)
    requires
        0 <= from <= w.len(),
        forall|j: int| 0 <= j < w.len() ==> #[trigger] w[j] != "dev"@,
    ensures
        device_after(w, from) is None,
    decreases w.len() - from,
{
    if from < w.len() {
        lemma_no_device_from(w, from + 1);
    }
}

/// A tool is run from the first of its places where it is present, and by its bare name
/// where it is present in none.
pub proof fn law_first_present_place(
    paths: Seq<Seq<char>>,
    present: Seq<bool>,
    name: Seq<char>,
    i: int,
)
    requires
        present.len() == paths.len(),
        0 <= i <= paths.len(),
        i < paths.len() ==> present[i],
        forall|j: int| 0 <= j < i ==> !(#[trigger] present[j]),
    ensures
        i < paths.len() ==> first_present(paths, present, name) == paths[i],
        i == paths.len() ==> first_present(paths, present, name) == name,
    decreases i,
{
    if i > 0 {
        let rest = present.skip(1);
        assert(!present[0]);
        assert forall|j: int| 0 <= j < i - 1 implies !(#[trigger] rest[j]) by {
            assert(rest[j] == present[j + 1]);
        }
        law_first_present_place(paths.skip(1), rest, name, i - 1);
    }
}

/// A tool is looked for in the directories of the system, each joined with its name.
pub proof fn law_places_of_a_tool(name: Seq<char>)
    ensures
        tool_paths(name).len() == 4,
        tool_paths(name)[0] == "/sbin/"@ + name,
        tool_paths(name)[1] == "/usr/sbin/"@ + name,
        tool_paths(name)[2] == "/usr/bin/"@ + name,
        tool_paths(name)[3] == "/bin/"@ + name,
{
}

/// The root of the inbound tree without zones: the device is created and brought up, its
/// queue leads to the class of the host, and that has the total as rate and ceiling.
pub proof fn law_inbound_root(ifb: Seq<char>, total: Option<u64>)
    ensures
        ({
            let p = ifb_root_steps(ifb, total);
            let top = decimal(
                (if total is Some {
                    total->0
                } else {
                    10_000_000_000u64
                }) as nat,
            ) + "bps"@;
            &&& p.len() == 4
            &&& p[0] is Try && p[0]->Try_args == seq!["link"@, "add"@, ifb, "type"@, "ifb"@]
            &&& p[1] is Run && p[1]->Run_args == seq!["link"@, "set"@, "dev"@, ifb, "up"@]
            &&& p[2] is Run && p[2]->Run_args == seq![
                "qdisc"@,
                "add"@,
                "dev"@,
                ifb,
                "root"@,
                "handle"@,
                "1:"@,
                "htb"@,
                "default"@,
                "1"@,
            ]
            &&& p[3] is Run && p[3]->Run_args == seq![
                "class"@,
                "add"@,
                "dev"@,
                ifb,
                "parent"@,
                "1:"@,
                "classid"@,
                "1:1"@,
                "htb"@,
                "rate"@,
                top,
                "ceil"@,
                top,
            ]
        }),
{
}

} // verus!
