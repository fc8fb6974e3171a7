use curb::addr::{IpAddr, Ipv4Addr};
use curb::monitor::accum::{Accum, IDLE_EVICT, SPARK_LEN};
use curb::monitor::capture::Sample;
use curb::monitor::flows::{FlowCache, FLOW_CACHE_MAX};
use curb::monitor::lan::LanRanges;
use curb::monitor::live::Monitor;
use curb::monitor::procmap::{FlowId, ProcMap, Proto, SocketOwners};
use curb::proto::AppStatus;

fn no_procs() -> ProcMap {
    ProcMap::new()
}

fn one_proc() -> ProcMap {
    let mut o = SocketOwners::new();
    o.add(11, "/usr/bin/firefox", 100);
    let row = "head\n 0: 0500A8C0:C350 01010101:01BB 01 0 0 0 0 0 11\n".to_string();
    ProcMap::build(&o, &vec![(Proto::Tcp, row)])
}

#[test]
fn rates_totals_and_zones() {
    let mut acc = Accum::new();
    acc.record("/usr/bin/firefox", false, 1000, false);
    acc.record("/usr/bin/firefox", false, 500, true);
    acc.record("/usr/bin/firefox", true, 70, false);
    acc.record("", false, 9, true);
    let s = acc.sample(&one_proc(), 42);
    assert_eq!(s.timestamp_ms, 42);
    assert_eq!(s.apps.len(), 2);
    let f = &s.apps[0];
    assert_eq!((f.exe.as_str(), f.name.as_str(), f.pids), ("/usr/bin/firefox", "firefox", 1));
    assert_eq!((f.down_bps, f.up_bps, f.down_total, f.up_total), (1500, 70, 1500, 70));
    assert_eq!((f.lan_down_bps, f.lan_up_bps), (500, 0));
    assert_eq!((f.inet_down_bps, f.inet_up_bps), (1000, 70));
    assert_eq!((f.down_spark.clone(), f.up_spark.clone()), (vec![1500], vec![70]));
    assert_eq!(f.status, AppStatus::Watching);
    let u = &s.apps[1];
    assert_eq!((u.exe.as_str(), u.name.as_str()), ("", "(unresolved)"));
    let h = s.host;
    assert_eq!((h.down_bps, h.up_bps, h.down_total, h.up_total), (1509, 70, 1509, 70));
    assert_eq!((h.lan_down_bps, h.lan_up_bps), (509, 0));
    assert_eq!((h.inet_down_bps, h.inet_up_bps), (1000, 70));
    // Counted once: the next sample shows no traffic, and the same totals.
    let t = acc.sample(&one_proc(), 43);
    assert_eq!((t.apps[0].down_bps, t.apps[0].up_bps, t.apps[0].down_total), (0, 0, 1500));
    assert_eq!((t.host.down_bps, t.host.down_total), (0, 1509));
}

#[test]
fn busiest_application_comes_first() {
    let mut acc = Accum::new();
    acc.record("/a", false, 10, false);
    acc.record("/b", false, 5, false);
    acc.record("/b", true, 50, false);
    acc.record("/c", true, 20, false);
    let s = acc.sample(&no_procs(), 0);
    let order: Vec<&str> = s.apps.iter().map(|a| a.exe.as_str()).collect();
    assert_eq!(order, vec!["/b", "/c", "/a"]);
}

#[test]
fn history_is_bounded() {
    let mut acc = Accum::new();
    for i in 0..70u64 {
        acc.record("/a", false, i + 1, false);
        acc.sample(&no_procs(), i);
    }
    acc.record("/a", false, 0x1_0000_0005, false);
    let s = acc.sample(&no_procs(), 70);
    assert_eq!(s.apps[0].down_spark.len(), SPARK_LEN);
    assert_eq!(s.apps[0].down_spark[0], 12);
    assert_eq!(s.apps[0].down_spark[SPARK_LEN - 1], 5);
}

#[test]
fn idle_applications_expire() {
    let mut acc = Accum::new();
    acc.record("/a", false, 10, false);
    acc.sample(&no_procs(), 0);
    for i in 0..IDLE_EVICT {
        assert_eq!(acc.sample(&no_procs(), i as u64).apps.len(), 1, "{i}");
    }
    assert_eq!(acc.sample(&no_procs(), 99).apps.len(), 0);
    // Coming back, it starts from zero, while the host keeps its total.
    acc.record("/a", false, 3, false);
    let s = acc.sample(&no_procs(), 100);
    assert_eq!((s.apps[0].down_total, s.host.down_total), (3, 13));
}

#[test]
fn live_processes_keep_an_application() {
    let mut acc = Accum::new();
    acc.record("/usr/bin/firefox", false, 10, false);
    for i in 0..200 {
        assert_eq!(acc.sample(&one_proc(), i).apps.len(), 1);
    }
}

fn sample(port: u16) -> Sample {
    Sample {
        proto: Proto::Tcp,
        local_ip: IpAddr::V4(Ipv4Addr::new(192, 168, 0, 5)),
        local_port: port,
        rem_ip: IpAddr::V4(Ipv4Addr::new(1, 1, 1, 1)),
        rem_port: 443,
        outgoing: true,
        bytes: 1,
    }
}

#[test]
fn closed_flows_keep_their_owner() {
    let mut cache = FlowCache::new();
    assert_eq!(cache.resolve(&no_procs(), &sample(50000)), "");
    assert_eq!(cache.resolve(&one_proc(), &sample(50000)), "/usr/bin/firefox");
    assert_eq!(cache.resolve(&no_procs(), &sample(50000)), "/usr/bin/firefox");
    assert_eq!(cache.resolve(&no_procs(), &sample(50001)), "");
}

#[test]
fn live_owner_of_a_flow_wins() {
    let mut o = SocketOwners::new();
    o.add(11, "/usr/bin/other", 7);
    let row = "head\n 0: 0500A8C0:C350 01010101:01BB 01 0 0 0 0 0 11\n".to_string();
    let other = ProcMap::build(&o, &vec![(Proto::Tcp, row)]);
    let mut cache = FlowCache::new();
    assert_eq!(cache.resolve(&one_proc(), &sample(50000)), "/usr/bin/firefox");
    assert_eq!(cache.resolve(&other, &sample(50000)), "/usr/bin/other");
    // The latest resolution is the one that is remembered.
    assert_eq!(cache.resolve(&no_procs(), &sample(50000)), "/usr/bin/other");
    assert_eq!(cache.flows.len(), 1);
}

/// A memory with as many flows as it may hold.
fn full_cache() -> FlowCache {
    let mut cache = FlowCache::new();
    for i in 0..FLOW_CACHE_MAX {
        let id = FlowId {
            proto: Proto::Udp,
            local_ip: IpAddr::V4(Ipv4Addr::new(10, 0, 0, 1)),
            local_port: i as u16,
            rem_ip: IpAddr::V4(Ipv4Addr::new(1, 1, 1, 1)),
            rem_port: 53,
        };
        cache.flows.entries.push((id, "/old".to_string()));
    }
    cache
}

#[test]
fn memory_is_emptied_where_a_new_flow_exceeds_it() {
    let mut cache = full_cache();
    assert_eq!(cache.resolve(&one_proc(), &sample(50000)), "/usr/bin/firefox");
    assert_eq!(cache.flows.len(), 1);
    // A flow that is remembered already does not exceed it.
    let mut cache = full_cache();
    cache.flows.entries.pop();
    assert_eq!(cache.resolve(&one_proc(), &sample(50000)), "/usr/bin/firefox");
    assert_eq!(cache.flows.len(), FLOW_CACHE_MAX);
    assert_eq!(cache.resolve(&one_proc(), &sample(50000)), "/usr/bin/firefox");
    assert_eq!(cache.flows.len(), FLOW_CACHE_MAX);
}

#[test]
fn monitor_counts_what_it_captures() {
    let mut frame = vec![0u8; 14];
    frame[12] = 0x08;
    let mut ip = vec![0u8; 24];
    ip[0] = 0x45;
    ip[2] = 0x05;
    ip[3] = 0xDC;
    ip[9] = 6;
    ip[12..16].copy_from_slice(&[192, 168, 0, 5]);
    ip[16..20].copy_from_slice(&[1, 1, 1, 1]);
    ip[20..22].copy_from_slice(&50000u16.to_be_bytes());
    ip[22..24].copy_from_slice(&443u16.to_be_bytes());
    frame.extend_from_slice(&ip);
    let mut m = Monitor::start(no_procs(), LanRanges::load(Vec::new()));
    assert_eq!(m.snapshot().apps.len(), 0);
    assert!(m.can_capture(&frame, true));
    m.capture(&frame, true);
    m.refresh(one_proc(), LanRanges::load(Vec::new()));
    m.capture(&frame, true);
    m.capture(&[1, 2, 3], true);
    m.sample(5);
    let s = m.snapshot();
    assert_eq!(s.host.up_total, 3000);
    assert_eq!(s.apps.len(), 2);
    let f = s.apps.iter().find(|a| a.exe == "/usr/bin/firefox").unwrap();
    assert_eq!((f.up_bps, f.down_bps, f.inet_up_bps), (1500, 0, 1500));
}
