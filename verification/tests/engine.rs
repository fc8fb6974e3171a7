use std::collections::hash_map::DefaultHasher;
use std::hash::{Hash, Hasher};

use curb::addr::Ipv4Addr;
use curb::engine::cgroup::{
    app_path, app_rel, base_path, creation_failure, member_count, members, members_path,
    root_members_path,
};
use curb::engine::flow_key::seed_flow;
use curb::engine::group_name::{dir_name, sanitize_dir};
use curb::engine::limiter::{classid, wants_ingress, Engine, FIRST_MINOR, IFB_DEV};
use curb::engine::nft::bin_paths as nft_paths;
use curb::engine::nft::{apply, burst, scope_clauses, AppRule};
use curb::engine::proc_connector::{parse_events, subscribe};
use curb::engine::step::{after_step, command_failure, explain, Step, Tool};
use curb::engine::tc;
use curb::monitor::lan::ip_bin_paths;
use curb::proto::{HostLimit, Scope, ScopedCap};

/// A step on one line.
fn show(s: &Step) -> String {
    let cmd = |tool: &Tool, args: &Vec<String>| {
        let name = match tool {
            Tool::Tc => "tc",
            Tool::Ip => "ip",
        };
        format!("{name} {}", args.join(" "))
    };
    match s {
        Step::Run { tool, args, context } => format!("[{context}] {}", cmd(tool, args)),
        Step::Try { tool, args } => format!("? {}", cmd(tool, args)),
        Step::ClearClasses => "clear classes".to_string(),
        Step::MapClass { dir, classid } => format!("map {dir} {classid:#x}"),
        Step::LoadRules { script, context } => format!("[{context}] nft\n{script}"),
        Step::DropRules => "drop rules".to_string(),
        Step::RemoveGroup { dir } => format!("rmdir {dir}"),
        Step::RemoveBase => "rmdir base".to_string(),
        Step::PlaceProcesses => "place".to_string(),
    }
}

fn show_all(steps: &[Step]) -> Vec<String> {
    steps.iter().map(show).collect()
}

fn host(down: Option<u64>, up: Option<u64>) -> HostLimit {
    HostLimit { down_bps: down, up_bps: up, ..HostLimit::default() }
}

#[test]
fn host_caps_build_both_trees() {
    let mut e = Engine::new("eno1".to_string(), false, false);
    assert!(!e.enabled());
    let mut h = host(Some(1000), Some(2000));
    h.lan = ScopedCap { down_bps: None, up_bps: Some(500) };
    let steps = show_all(&e.set_host_limit(h));
    assert!(e.enabled());
    assert_eq!(steps[0], "? tc qdisc del dev eno1 root");
    let c = "[building egress HTB tree] tc";
    assert_eq!(steps[1], format!("{c} qdisc add dev eno1 root handle 1: htb default 3"));
    assert_eq!(
        steps[2],
        format!("{c} class add dev eno1 parent 1: classid 1:1 htb rate 2000bps ceil 2000bps")
    );
    assert_eq!(
        steps[3],
        format!("{c} class add dev eno1 parent 1:1 classid 1:2 htb rate 500bps ceil 2000bps")
    );
    assert_eq!(
        steps[4],
        format!("{c} class add dev eno1 parent 1:1 classid 1:3 htb rate 2000bps ceil 2000bps")
    );
    assert_eq!(
        steps[5],
        format!(
            "{c} filter add dev eno1 parent 1: protocol ip prio 1 u32 match ip dst 127.0.0.0/8 flowid 1:2"
        )
    );
    assert_eq!(
        steps[13],
        format!(
            "{c} filter add dev eno1 parent 1: protocol ipv6 prio 1 u32 match ip6 dst fe80::/10 flowid 1:2"
        )
    );
    assert_eq!(steps[14], "? tc filter del dev eno1 ingress pref 2");
    assert_eq!(steps[15], "? tc qdisc del dev ifbcurb root");
    assert_eq!(steps[16], "? ip link del ifbcurb");
    assert_eq!(steps[17], "? ip link add ifbcurb type ifb");
    assert_eq!(
        steps[18],
        "[building scoped host download shaping: bringing up ifbcurb] ip link set dev ifbcurb up"
    );
    assert!(steps[19].ends_with("tc qdisc add dev ifbcurb root handle 1: htb default 3"));
    let n = steps.len();
    assert!(steps[n - 3].ends_with("tc qdisc add dev eno1 handle ffff: ingress"));
    assert!(steps[n - 2].ends_with(
        "tc filter add dev eno1 parent ffff: protocol all u32 match u32 0 0 action mirred egress redirect dev ifbcurb"
    ));
    assert_eq!(steps[n - 1], "drop rules");
}

#[test]
fn unlimited_host_runs_at_line_rate() {
    let mut e = Engine::new("eno1".to_string(), false, false);
    let steps = show_all(&e.set_host_limit(host(None, None)));
    assert!(steps[2].ends_with("rate 10000000000bps ceil 10000000000bps"));
    // Without a download cap there is no intermediate device.
    assert!(!steps.iter().any(|s| s.contains("link add")));
}

#[test]
fn switch_off_only_removes_and_keeps_caps() {
    let mut e = Engine::new("eno1".to_string(), true, true);
    e.set_host_limit(host(Some(1000), Some(2000)));
    e.set_app_limit("/usr/bin/firefox", Some(10), Some(20), Scope::Both, Ok(())).unwrap();
    let on = show_all(&e.set_enabled(true));
    let off = show_all(&e.set_enabled(false));
    assert_eq!(
        off,
        vec![
            "? tc qdisc del dev eno1 root",
            "clear classes",
            "? tc filter del dev eno1 ingress pref 2",
            "? tc qdisc del dev ifbcurb root",
            "? ip link del ifbcurb",
            "drop rules",
        ]
    );
    assert!(!e.state().enabled);
    assert_eq!(e.state().host.up_bps, Some(2000));
    assert_eq!(show_all(&e.set_enabled(true)), on);
}

#[test]
fn classifier_shapes_what_the_filter_would_police() {
    let dir = sanitize_dir("/usr/bin/firefox");
    // No classifier: the filter polices both directions.
    let mut e = Engine::new("eno1".to_string(), false, true);
    let steps = show_all(
        &e.set_app_limit("/usr/bin/firefox", Some(400_000), Some(8), Scope::Lan, Ok(())).unwrap(),
    );
    let script = steps.iter().find(|s| s.contains("nft\n")).unwrap();
    assert!(script.starts_with("[applying nft per-app rules] nft\nadd table inet curb\n"));
    assert!(script.contains(&format!(
        "add rule inet curb input socket cgroupv2 level 2 \"curb/{dir}\" ip saddr {{ 127.0.0.0/8, 10.0.0.0/8, 172.16.0.0/12, 192.168.0.0/16, 169.254.0.0/16, 100.64.0.0/10 }} limit rate over 400000 bytes/second burst 100000 bytes drop\n"
    )));
    assert!(script.contains("ip6 daddr { ::1, fc00::/7, fe80::/10 } limit rate over 8 bytes/second burst 65536 bytes drop\n"));
    assert!(!steps.iter().any(|s| s.contains("classid 1:10")));
    assert_eq!(steps.last().unwrap(), "place");
    // Classifier for uploads.
    let mut e = Engine::new("eno1".to_string(), true, false);
    let steps = show_all(
        &e.set_app_limit("/usr/bin/firefox", Some(400_000), Some(8), Scope::Both, Ok(())).unwrap(),
    );
    assert!(steps.iter().any(|s| s.ends_with(
        "class add dev eno1 parent 1:1 classid 1:10 htb rate 8bps ceil 10000000000bps"
    )));
    assert!(steps.contains(&format!("map {dir} 0x10010")));
    let script = steps.iter().find(|s| s.contains("nft\n")).unwrap();
    assert!(script.contains("input") && !script.contains("limit rate over 8 "));
    // Classifier for both directions.
    let mut e = Engine::new("eno1".to_string(), true, true);
    let steps = show_all(
        &e.set_app_limit("/usr/bin/firefox", Some(20_000_000_000), None, Scope::Both, Ok(()))
            .unwrap(),
    );
    assert!(steps.contains(
        &"[adding per-app ingress class] tc class add dev ifbcurb parent 1: classid 1:10 htb rate 20000000000bps ceil 20000000000bps"
            .to_string()
    ));
    assert!(steps.contains(
        &"[adding mirred ingress redirect] tc filter add dev eno1 ingress pref 2 matchall action mirred egress redirect dev ifbcurb"
            .to_string()
    ));
    let script = steps.iter().find(|s| s.contains("nft\n")).unwrap();
    assert!(!script.contains("limit rate"));
    assert!(steps.contains(
        &"[building IFB HTB root: bringing up ifbcurb (ifb module available?)] ip link set dev ifbcurb up"
            .to_string()
    ));
}

#[test]
fn caps_on_one_zone_are_policed() {
    for scope in [Scope::Lan, Scope::Internet] {
        let mut e = Engine::new("eno1".to_string(), true, true);
        let steps = show_all(&e.set_app_limit("/a", Some(400_000), Some(8), scope, Ok(())).unwrap());
        // A class would take in the other zone as well.
        assert!(!steps.iter().any(|s| s.contains("classid 1:10")));
        assert!(!steps.iter().any(|s| s.starts_with("map ")));
        assert!(!steps.iter().any(|s| s.contains("link add")));
        let script = steps.iter().find(|s| s.contains("nft\n")).unwrap();
        let not = if scope == Scope::Lan { "" } else { "!= " };
        assert!(script.contains(&format!("ip saddr {not}{{ 127.0.0.0/8")));
        assert!(script.contains("limit rate over 400000 bytes/second"));
        assert!(script.contains(&format!("ip6 daddr {not}{{ ::1")));
        assert!(script.contains("limit rate over 8 bytes/second"));
    }
}

#[test]
fn rules_keep_block_and_class() {
    let mut e = Engine::new("eno1".to_string(), true, false);
    e.set_app_limit("/a", Some(1), None, Scope::Both, Ok(())).unwrap();
    e.set_app_limit("/b", Some(1), None, Scope::Both, Ok(())).unwrap();
    e.set_app_blocked("/a", true, Ok(())).unwrap();
    let steps = show_all(&e.set_app_limit("/a", None, Some(7), Scope::Both, Ok(())).unwrap());
    // Its class is still the first one, and its block stands.
    assert!(steps.iter().any(|s| s.contains("classid 1:10 htb rate 7bps")));
    let script = steps.iter().find(|s| s.contains("nft\n")).unwrap();
    assert!(script.contains(&format!("\"curb/{}\" drop\n", sanitize_dir("/a"))));
    // The change set a class aside, so the next application gets the fourth.
    let steps = show_all(&e.set_app_limit("/c", None, Some(9), Scope::Both, Ok(())).unwrap());
    assert!(steps.iter().any(|s| s.contains("classid 1:13 htb rate 9bps")));
}

#[test]
fn failed_group_changes_nothing() {
    let mut e = Engine::new("eno1".to_string(), false, false);
    let err = e.set_app_limit("/a", Some(1), None, Scope::Both, Err("no space".to_string()));
    assert_eq!(err.unwrap_err(), "creating app cgroup: no space");
    assert!(!e.enabled());
    assert!(!e.is_tracked("/a"));
    assert_eq!(e.next_minor, FIRST_MINOR);
    let err = e.set_app_blocked("/a", true, Err("no space".to_string()));
    assert_eq!(err.unwrap_err(), "creating app cgroup: no space");
    let err = e.ensure_tracked("/a", Err("no space".to_string()));
    assert_eq!(err.unwrap_err(), "creating app cgroup: no space");
    assert!(!e.is_tracked("/a"));
}

#[test]
fn blocks_come_and_go() {
    let dir = sanitize_dir("/usr/bin/a");
    let mut e = Engine::new("eno1".to_string(), false, false);
    assert!(e.block_needs_group("/usr/bin/a", true));
    assert!(!e.block_needs_group("/usr/bin/a", false));
    assert!(e.set_app_blocked("/usr/bin/a", false, Ok(())).unwrap().is_empty());
    let steps = show_all(&e.set_app_blocked("/usr/bin/a", true, Ok(())).unwrap());
    assert!(e.enabled());
    assert_eq!(steps.len(), 2);
    assert!(steps[0].ends_with(&format!(
        "add rule inet curb input socket cgroupv2 level 2 \"curb/{dir}\" drop\nadd rule inet curb output socket cgroupv2 level 2 \"curb/{dir}\" drop\n"
    )));
    assert_eq!(steps[1], "place");
    let steps = show_all(&e.set_app_blocked("/usr/bin/a", false, Ok(())).unwrap());
    assert_eq!(steps, vec!["drop rules".to_string(), format!("rmdir {dir}")]);
    assert!(!e.is_tracked("/usr/bin/a"));
    // With a cap the rule stays.
    e.set_app_limit("/usr/bin/a", Some(5), None, Scope::Both, Ok(())).unwrap();
    e.set_app_blocked("/usr/bin/a", true, Ok(())).unwrap();
    e.set_app_blocked("/usr/bin/a", false, Ok(())).unwrap();
    assert!(e.is_tracked("/usr/bin/a"));
}

#[test]
fn tracking_without_a_limit() {
    let dir = sanitize_dir("/usr/bin/a");
    let mut e = Engine::new("eno1".to_string(), false, false);
    assert_eq!(show_all(&e.ensure_tracked("/usr/bin/a", Ok(())).unwrap()), vec!["place"]);
    assert!(!e.enabled());
    assert_eq!(e.group_of("/usr/bin/a"), Some(&dir));
    assert_eq!(e.group_of("/usr/bin/b"), None);
    assert_eq!(e.group_of(""), None);
    assert_eq!(show_all(&e.ensure_tracked("/usr/bin/a", Err("x".to_string())).unwrap()), vec!["place"]);
    assert_eq!(show_all(&e.untrack_if_empty("/usr/bin/a")), vec![format!("rmdir {dir}")]);
    assert!(e.untrack_if_empty("/usr/bin/a").is_empty());
    e.set_app_limit("/usr/bin/a", Some(5), None, Scope::Both, Ok(())).unwrap();
    assert!(e.untrack_if_empty("/usr/bin/a").is_empty());
    let steps = show_all(&e.clear_app_limit("/usr/bin/a"));
    assert_eq!(steps.last().unwrap(), &format!("rmdir {dir}"));
    assert_eq!(show_all(&e.clear_app_limit("/usr/bin/a")).last().unwrap(), "drop rules");
}

#[test]
fn rules_are_listed_by_name() {
    let mut e = Engine::new("eno1".to_string(), false, false);
    e.set_app_limit("/opt/zoom", Some(5), None, Scope::Lan, Ok(())).unwrap();
    e.set_app_limit("/usr/bin/apt", None, Some(6), Scope::Both, Ok(())).unwrap();
    let dirs = e.groups();
    let pids: Vec<u32> = dirs.iter().map(|d| if d.starts_with("zoom") { 3 } else { 1 }).collect();
    let l = e.list_app_limits(&pids);
    assert_eq!((l[0].name.as_str(), l[0].exe.as_str(), l[0].pids), ("apt", "/usr/bin/apt", 1));
    assert_eq!((l[1].name.as_str(), l[1].pids, l[1].scope), ("zoom", 3, Scope::Lan));
    assert_eq!((l[1].down_bps, l[1].up_bps), (Some(5), None));
}

#[test]
fn shutdown_takes_everything_down() {
    let dir = sanitize_dir("/a");
    let mut e = Engine::new("eno1".to_string(), false, false);
    assert!(e.abandon().is_empty());
    e.set_app_limit("/a", Some(5), None, Scope::Both, Ok(())).unwrap();
    assert_eq!(e.abandon().len(), 5);
    let steps = show_all(&e.shutdown());
    assert_eq!(
        steps,
        vec![
            "? tc qdisc del dev eno1 root".to_string(),
            "? tc filter del dev eno1 ingress pref 2".to_string(),
            "? tc qdisc del dev eno1 ingress".to_string(),
            "? tc qdisc del dev ifbcurb root".to_string(),
            "? ip link del ifbcurb".to_string(),
            "? tc qdisc del dev ifbcurb root".to_string(),
            "? ip link del ifbcurb".to_string(),
            "? tc qdisc del dev eno1 clsact".to_string(),
            "drop rules".to_string(),
            format!("rmdir {dir}"),
            "rmdir base".to_string(),
        ]
    );
    assert!(!e.is_tracked("/a"));
}

#[test]
fn classes_wrap_to_the_first() {
    let mut e = Engine::new("eno1".to_string(), true, false);
    e.next_minor = u16::MAX;
    let steps = show_all(&e.set_app_limit("/a", None, Some(1), Scope::Both, Ok(())).unwrap());
    assert!(steps.iter().any(|s| s.contains("classid 1:ffff ")));
    assert_eq!(e.next_minor, FIRST_MINOR);
    // Classes in use are passed over.
    e.set_app_limit("/b", None, Some(2), Scope::Both, Ok(())).unwrap();
    e.next_minor = u16::MAX;
    let steps = show_all(&e.set_app_limit("/c", None, Some(3), Scope::Both, Ok(())).unwrap());
    assert!(steps.iter().any(|s| s.contains("classid 1:10 htb rate 2bps")));
    assert!(steps.iter().any(|s| s.contains("classid 1:11 htb rate 3bps")));
    assert_eq!(e.next_minor, 0x12);
    assert_eq!(classid(0x10), 0x1_0010);
}

#[test]
fn group_names_are_safe_and_stable() {
    assert_eq!(dir_name("/usr/bin/firefox", 0xABCD_1234_0000_003F), "firefox-0000003f");
    assert_eq!(
        dir_name("/opt/My App (1).x86_64-with-long-name", 0x1_2345_6789),
        "My_App__1__x86_64-with-l-23456789"
    );
    assert_eq!(dir_name("/é/", 1), "-00000001");
    // Only the low half of the hash and the safe part of the path tell names apart.
    assert_eq!(dir_name("/a/x y", 0x1_0000_0007), dir_name("/b/x_y", 7));
    assert_ne!(dir_name("/a/x", 7), dir_name("/a/x", 8));
    assert_ne!(dir_name("/a/x", 7), dir_name("/a/z", 7));
    let a = sanitize_dir("/usr/bin/firefox");
    assert_eq!(a, sanitize_dir("/usr/bin/firefox"));
    assert_ne!(a, sanitize_dir("/opt/firefox"));
    assert!(a.starts_with("firefox-"));
    // The hash of the path by the hasher of the standard library.
    let mut h = DefaultHasher::new();
    "/usr/bin/firefox".hash(&mut h);
    assert_eq!(a, format!("firefox-{:08x}", h.finish() as u32));
}

#[test]
fn filter_scripts() {
    let preamble = "add table inet curb\nflush table inet curb\nadd chain inet curb input { type filter hook input priority -150; }\nadd chain inet curb output { type filter hook output priority -150; }\n";
    assert_eq!(apply(&Vec::new()), preamble);
    let rule = |down, up, scope, blocked| AppRule {
        cgroup_rel: "curb/x".to_string(),
        down_bps: down,
        up_bps: up,
        scope,
        blocked,
    };
    assert_eq!(apply(&vec![rule(None, None, Scope::Both, false)]), preamble);
    assert_eq!(
        apply(&vec![rule(Some(1_000_000), None, Scope::Both, false)]),
        format!("{preamble}add rule inet curb input socket cgroupv2 level 2 \"curb/x\" limit rate over 1000000 bytes/second burst 250000 bytes drop\n")
    );
    assert_eq!(
        apply(&vec![rule(Some(1), Some(2), Scope::Internet, true)]),
        format!("{preamble}add rule inet curb input socket cgroupv2 level 2 \"curb/x\" drop\nadd rule inet curb output socket cgroupv2 level 2 \"curb/x\" drop\n")
    );
    assert_eq!(scope_clauses(Scope::Both, "saddr"), vec![""]);
    assert_eq!(scope_clauses(Scope::Internet, "daddr")[1], "ip6 daddr != { ::1, fc00::/7, fe80::/10 } ");
    assert_eq!((burst(0), burst(262_144), burst(262_148)), (65536, 65536, 65537));
}

#[test]
fn group_paths_and_members() {
    assert_eq!(base_path(), "/sys/fs/cgroup/curb");
    assert_eq!(app_path("x-1"), "/sys/fs/cgroup/curb/x-1");
    assert_eq!(app_rel("x-1"), "curb/x-1");
    assert_eq!(members_path("x-1"), "/sys/fs/cgroup/curb/x-1/cgroup.procs");
    assert_eq!(root_members_path(), "/sys/fs/cgroup/cgroup.procs");
    assert_eq!(member_count(Some("1\n2\n33\n")), 3);
    assert_eq!(member_count(Some("")), 0);
    assert_eq!(member_count(None), 0);
    assert_eq!(members("1\n22\n"), vec!["1", "22"]);
    assert_eq!(creation_failure("x", "denied"), "creating cgroup /sys/fs/cgroup/curb/x: denied");
}

#[test]
fn tools_and_devices() {
    let paths = tc::bin_paths("tc");
    assert_eq!(paths, vec!["/sbin/tc", "/usr/sbin/tc", "/usr/bin/tc", "/bin/tc"]);
    assert_eq!(tc::bin(&paths, &vec![false, true, true, false], "tc"), "/usr/sbin/tc");
    assert_eq!(tc::bin(&paths, &vec![false; 4], "tc"), "tc");
    assert_eq!(nft_paths(), vec!["/usr/sbin/nft", "/sbin/nft", "/usr/bin/nft"]);
    assert_eq!(ip_bin_paths(), vec!["/usr/sbin/ip", "/sbin/ip", "/usr/bin/ip", "/bin/ip"]);
    assert_eq!(
        tc::default_interface("default via 192.168.0.1 dev eno1 proto dhcp metric 100\n"),
        Some("eno1".to_string())
    );
    assert_eq!(tc::default_interface("default dev\nx dev tun0"), Some("tun0".to_string()));
    assert_eq!(tc::default_interface(""), None);
    assert_eq!(show(&tc::ifb_probe(IFB_DEV)), "[] ip link add ifbcurb type ifb");
    let (yes, steps) = tc::ifb_available(IFB_DEV, true);
    assert!(yes);
    assert_eq!(show_all(&steps), vec!["? ip link del ifbcurb"]);
    let (no, steps) = tc::ifb_available(IFB_DEV, false);
    assert!(!no && steps.is_empty());
    assert_eq!(show_all(&tc::clear_clsact("eno1")), vec!["? tc qdisc del dev eno1 clsact"]);
    for on in ["1", "true", "yes", "on"] {
        assert!(wants_ingress(Some(on)));
    }
    assert!(!wants_ingress(Some("TRUE")) && !wants_ingress(Some("0")) && !wants_ingress(None));
}

#[test]
fn zone_caps_are_shaped_beside_the_classifier() {
    let mut e = Engine::new("eno1".to_string(), true, true);
    let mut h = host(None, None);
    h.lan = ScopedCap { down_bps: Some(500), up_bps: None };
    let steps = show_all(&e.set_host_limit(h));
    let c = "[building IFB HTB root] tc";
    let at = |s: &str| steps.iter().position(|x| x == s).unwrap_or_else(|| panic!("{s}"));
    let up = at("[building IFB HTB root: bringing up ifbcurb] ip link set dev ifbcurb up");
    let lan = at(&format!(
        "{c} class add dev ifbcurb parent 1:1 classid 1:2 htb rate 500bps ceil 10000000000bps"
    ));
    let filter = at(&format!(
        "{c} filter add dev ifbcurb parent 1: protocol ip prio 1 u32 match ip src 10.0.0.0/8 flowid 1:2"
    ));
    let redirect = at("[adding mirred ingress redirect] tc filter add dev eno1 ingress pref 2 matchall action mirred egress redirect dev ifbcurb");
    assert!(up < lan && lan < filter && filter < redirect);
    // Applications hang below the total.
    let steps = show_all(&e.set_app_limit("/a", Some(7), None, Scope::Both, Ok(())).unwrap());
    assert!(steps.contains(&format!(
        "{c} class add dev ifbcurb parent 1:1 classid 1:10 htb rate 7bps ceil 10000000000bps"
    )));
}

#[test]
fn first_failure_that_counts_ends_the_operation() {
    let steps = tc::ifb_root(IFB_DEV, None);
    assert_eq!(steps.len(), 4);
    assert_eq!(after_step(&steps[0], Some("exists")), Ok(()));
    assert_eq!(after_step(&steps[1], None), Ok(()));
    assert_eq!(
        after_step(&steps[1], Some("no device")),
        Err("bringing up ifbcurb (ifb module available?): no device".to_string())
    );
    assert_eq!(after_step(&steps[2], Some("busy")), Err("busy".to_string()));
    assert_eq!(after_step(&Step::ClearClasses, Some("gone")), Ok(()));
    let rules = Step::LoadRules { script: String::new(), context: "loading".to_string() };
    assert_eq!(after_step(&rules, Some("syntax")), Err("loading: syntax".to_string()));
    let scoped = tc::build_ingress_scoped("eno1", IFB_DEV, None, None, None, &Vec::new());
    let ignored: Vec<usize> =
        (0..scoped.len()).filter(|i| after_step(&scoped[*i], Some("x")).is_ok()).collect();
    assert_eq!(ignored, vec![0]);
}

#[test]
fn failures_are_explained() {
    let args = vec!["qdisc".to_string(), "add".to_string()];
    let f = command_failure("/sbin/tc", &args, "  no such device\n");
    assert_eq!(f, "/sbin/tc qdisc add failed: no such device");
    assert_eq!(explain("building", &f), "building: /sbin/tc qdisc add failed: no such device");
    assert_eq!(explain("", &f), f);
}

fn notice(what: u32, pid: u32, len: u32) -> Vec<u8> {
    let mut m = vec![0u8; 60];
    m[0..4].copy_from_slice(&len.to_le_bytes());
    m[36..40].copy_from_slice(&what.to_le_bytes());
    m[52..56].copy_from_slice(&pid.to_le_bytes());
    m
}

#[test]
fn notices_of_started_programs() {
    let mut d = notice(2, 4711, 60);
    d.extend_from_slice(&notice(1, 1, 60));
    d.extend_from_slice(&notice(2, 42, 60));
    assert_eq!(parse_events(&d, false), vec![4711, 42]);
    // Longer messages are padded to four bytes.
    let mut long = notice(2, 7, 62);
    long.extend_from_slice(&[0; 4]);
    long.extend_from_slice(&notice(2, 8, 60));
    assert_eq!(parse_events(&long, false), vec![7, 8]);
    assert_eq!(parse_events(&notice(2, 7, 59), false), Vec::<u32>::new());
    assert_eq!(parse_events(&notice(2, 7, 64), false), Vec::<u32>::new());
    assert_eq!(parse_events(&[0; 59], false), Vec::<u32>::new());
    let mut big = vec![0u8; 60];
    big[3] = 60;
    big[39] = 2;
    big[54] = 1;
    assert_eq!(parse_events(&big, true), vec![256]);
}

#[test]
fn subscription_message() {
    let m = subscribe(0x0102_0304, false);
    assert_eq!(m.len(), 40);
    assert_eq!(&m[..16], &[40, 0, 0, 0, 1, 0, 0, 0, 0, 0, 0, 0, 4, 3, 2, 1]);
    assert_eq!(&m[16..24], &[1, 0, 0, 0, 1, 0, 0, 0]);
    assert_eq!(&m[32..], &[4, 0, 0, 0, 1, 0, 0, 0]);
    assert_eq!(&subscribe(1, true)[..6], &[0, 0, 0, 40, 0, 1]);
}

#[test]
fn connections_have_a_key_for_each_direction() {
    let (out, back) = seed_flow(
        Ipv4Addr::new(192, 168, 0, 5),
        50000,
        Ipv4Addr::new(1, 2, 3, 4),
        443,
        6,
    );
    assert_eq!((out.saddr, out.daddr), ([192, 168, 0, 5], [1, 2, 3, 4]));
    assert_eq!((out.sport, out.dport), ([0xC3, 0x50], [0x01, 0xBB]));
    assert_eq!((back.saddr, back.daddr), (out.daddr, out.saddr));
    assert_eq!((back.sport, back.dport), (out.dport, out.sport));
    assert_eq!((out.proto, back.proto, out.pad), (6, 6, [0, 0, 0]));
}
