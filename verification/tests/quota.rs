use curb::proto::{
    AppStat, AppStatus, Direction, HostTotals, MonitorSnapshot, QuotaPeriod,
};
use curb::quota::{period_len, state_path, totals_for, QuotaEntry, QuotaManager};

const HOUR: u64 = 3_600_000;

fn stat(exe: &str, down: u64, up: u64) -> AppStat {
    AppStat {
        exe: exe.to_string(),
        name: "x".to_string(),
        pids: 0,
        down_bps: 0,
        up_bps: 0,
        down_total: down,
        up_total: up,
        down_spark: Vec::new(),
        up_spark: Vec::new(),
        status: AppStatus::Watching,
        lan_down_bps: 0,
        lan_up_bps: 0,
        inet_down_bps: 0,
        inet_up_bps: 0,
    }
}

fn snap(apps: Vec<AppStat>) -> MonitorSnapshot {
    MonitorSnapshot { apps, host: HostTotals::default(), timestamp_ms: 0 }
}

fn actions(v: &[(&str, bool)]) -> Vec<(String, bool)> {
    v.iter().map(|(e, b)| (e.to_string(), *b)).collect()
}

#[test]
fn quota_blocks_above_the_budget_and_resets() {
    let mut q = QuotaManager::new();
    let s0 = snap(vec![stat("/usr/bin/a", 1000, 1000)]);
    q.set_quota("/usr/bin/a", 100, QuotaPeriod::Hourly, Direction::Both, &s0, 0);
    assert_eq!(q.tick(&s0, 0), actions(&[]));
    let s1 = snap(vec![stat("/usr/bin/a", 1060, 1039)]);
    assert_eq!(q.tick(&s1, 1000), actions(&[]));
    assert_eq!(q.list(1000)[0].used_bytes, 99);
    // Using up the budget does not exceed it.
    assert_eq!(q.tick(&snap(vec![stat("/usr/bin/a", 1061, 1039)]), 1500), actions(&[]));
    let l = q.list(1500);
    assert_eq!((l[0].used_bytes, l[0].exceeded), (100, false));
    let s2 = snap(vec![stat("/usr/bin/a", 1062, 1039)]);
    assert_eq!(q.tick(&s2, 2000), actions(&[("/usr/bin/a", true)]));
    assert!(q.list(2000)[0].exceeded);
    assert_eq!(q.tick(&s2, 3000), actions(&[]));
    // The period ends: usage starts again, and the block is lifted.
    let s3 = snap(vec![stat("/usr/bin/a", 5000, 5000)]);
    assert_eq!(q.tick(&s3, HOUR), actions(&[("/usr/bin/a", false)]));
    let l = q.list(HOUR);
    assert_eq!((l[0].used_bytes, l[0].exceeded, l[0].resets_in_secs), (0, false, Some(3600)));
    let s4 = snap(vec![stat("/usr/bin/a", 5010, 5000)]);
    assert_eq!(q.tick(&s4, HOUR + 1), actions(&[]));
    assert_eq!(q.list(HOUR + 1)[0].used_bytes, 10);
}

#[test]
fn quota_counts_its_direction() {
    for (direction, used) in [(Direction::Down, 30), (Direction::Up, 4), (Direction::Both, 34)] {
        let mut q = QuotaManager::new();
        let s0 = snap(vec![]);
        q.set_quota("/a", 1000, QuotaPeriod::Total, direction, &s0, 0);
        q.tick(&snap(vec![stat("/a", 30, 4)]), 1);
        assert_eq!(q.list(2)[0].used_bytes, used);
        assert_eq!(q.list(2)[0].resets_in_secs, None);
    }
}

#[test]
fn lifetime_quota_never_resets() {
    let mut q = QuotaManager::new();
    q.set_quota("/a", 10, QuotaPeriod::Total, Direction::Down, &snap(vec![]), 0);
    assert_eq!(q.tick(&snap(vec![stat("/a", 10, 0)]), 1), actions(&[]));
    assert_eq!(q.tick(&snap(vec![stat("/a", 11, 0)]), 2), actions(&[("/a", true)]));
    assert_eq!(q.tick(&snap(vec![stat("/a", 11, 0)]), u64::MAX / 2), actions(&[]));
    assert!(q.list(u64::MAX / 2)[0].exceeded);
}

#[test]
fn counters_that_go_back_charge_nothing() {
    let mut q = QuotaManager::new();
    q.set_quota("/a", 100, QuotaPeriod::Daily, Direction::Down, &snap(vec![stat("/a", 50, 0)]), 0);
    q.tick(&snap(vec![stat("/a", 60, 0)]), 1);
    q.tick(&snap(vec![stat("/a", 5, 0)]), 2);
    q.tick(&snap(vec![stat("/a", 7, 0)]), 3);
    assert_eq!(q.list(3)[0].used_bytes, 12);
    // An application that the monitor does not list is left alone.
    q.tick(&snap(vec![]), 4);
    assert_eq!(q.list(4)[0].used_bytes, 12);
}

#[test]
fn empty_budget_blocks_at_the_first_byte() {
    let mut q = QuotaManager::new();
    let ordered = q.set_quota("/a", 0, QuotaPeriod::Hourly, Direction::Both, &snap(vec![]), 0);
    assert_eq!(ordered, Some(actions(&[])));
    let s = snap(vec![stat("/a", 0, 1)]);
    assert_eq!(q.tick(&s, 1), actions(&[("/a", true)]));
    assert_eq!(q.tick(&s, 2), actions(&[]));
    assert_eq!(q.tick(&s, HOUR), actions(&[("/a", false)]));
}

#[test]
fn replaced_quota_lifts_its_block() {
    let mut q = QuotaManager::new();
    q.set_quota("/a", 5, QuotaPeriod::Hourly, Direction::Both, &snap(vec![]), 0);
    let s = snap(vec![stat("/a", 6, 0)]);
    assert_eq!(q.tick(&s, 1), actions(&[("/a", true)]));
    let ordered = q.set_quota("/a", 100, QuotaPeriod::Hourly, Direction::Both, &s, 2);
    assert_eq!(ordered, Some(actions(&[("/a", false)])));
    let l = q.list(2);
    assert_eq!((l[0].used_bytes, l[0].exceeded, l[0].budget_bytes), (0, false, 100));
    // Replacing one that is not exceeded orders nothing.
    let ordered = q.set_quota("/a", 50, QuotaPeriod::Hourly, Direction::Both, &s, 3);
    assert_eq!(ordered, Some(actions(&[])));
    assert!(!q.clear_quota("/a"));
}

#[test]
fn cleared_quota_lifts_its_block() {
    let mut q = QuotaManager::new();
    q.set_quota("/a", 0, QuotaPeriod::Hourly, Direction::Both, &snap(vec![]), 0);
    q.set_quota("/b", 9, QuotaPeriod::Hourly, Direction::Both, &snap(vec![]), 0);
    q.tick(&snap(vec![stat("/a", 1, 0)]), 0);
    assert!(q.clear_quota("/a"));
    assert!(!q.clear_quota("/b"));
    assert!(!q.clear_quota("/c"));
    assert!(q.list(0).is_empty());
}

#[test]
fn quotas_are_listed_by_name() {
    let mut q = QuotaManager::new();
    for exe in ["/opt/zoom", "/usr/bin/apt", "/usr/bin/firefox", "/bin/ap"] {
        q.set_quota(exe, 1, QuotaPeriod::Weekly, Direction::Up, &snap(vec![]), 1000);
    }
    let l = q.list(1_500);
    let names: Vec<&str> = l.iter().map(|s| s.name.as_str()).collect();
    assert_eq!(names, vec!["ap", "apt", "firefox", "zoom"]);
    assert_eq!(l[0].resets_in_secs, Some(604_799));
    assert_eq!((l[0].period, l[0].direction), (QuotaPeriod::Weekly, Direction::Up));
}

#[test]
fn stored_quotas_resume() {
    let mut q = QuotaManager::new();
    let stored = QuotaEntry {
        name: "a".to_string(),
        budget_bytes: 10,
        period: QuotaPeriod::Daily,
        direction: Direction::Both,
        used_bytes: 12,
        period_start_ms: 5,
        exceeded: true,
        last_down_total: 500,
        last_up_total: 600,
    };
    assert!(q.resume("/a".to_string(), stored));
    q.tick(&snap(vec![stat("/a", 3, 4)]), 6);
    let l = q.list(6);
    assert_eq!((l[0].used_bytes, l[0].exceeded), (19, true));
}

#[test]
fn all_stored_quotas_are_taken_over() {
    let entry = |used: u64, exceeded: bool| QuotaEntry {
        name: "n".to_string(),
        budget_bytes: 10,
        period: QuotaPeriod::Total,
        direction: Direction::Down,
        used_bytes: used,
        period_start_ms: 5,
        exceeded,
        last_down_total: 500,
        last_up_total: 600,
    };
    let stored = vec![
        ("/c".to_string(), entry(11, true)),
        ("/a".to_string(), entry(3, false)),
        ("/b".to_string(), entry(12, true)),
    ];
    let (mut q, blocked) = QuotaManager::resume_all(stored);
    assert_eq!(blocked, vec!["/c", "/b"]);
    // The cursors start at zero again.
    q.tick(&snap(vec![stat("/a", 4, 0)]), 6);
    let l = q.list(6);
    let a = l.iter().find(|s| s.exe == "/a").unwrap();
    assert_eq!((l.len(), a.used_bytes, a.exceeded), (3, 7, false));
    let (q, blocked) = QuotaManager::resume_all(Vec::new());
    assert!(blocked.is_empty() && q.list(0).is_empty());
}

#[test]
fn accounting_that_runs_over_is_announced() {
    let mut q = QuotaManager::new();
    q.set_quota("/a", u64::MAX, QuotaPeriod::Total, Direction::Both, &snap(vec![]), 0);
    let s = snap(vec![stat("/a", u64::MAX, 1)]);
    assert!(!q.can_tick(&s, 0));
    assert!(q.can_tick(&snap(vec![stat("/a", u64::MAX, 0)]), 0));
    assert!(!q.can_tick(&snap(vec![]), u64::MAX));
    let ordered = q.set_quota("/b", 1, QuotaPeriod::Total, Direction::Both, &s, 0);
    assert_eq!(ordered, None);
    assert_eq!(q.list(0).len(), 2);
}

#[test]
fn periods_and_paths() {
    assert_eq!(period_len(QuotaPeriod::Hourly), Some(3_600_000));
    assert_eq!(period_len(QuotaPeriod::Daily), Some(86_400_000));
    assert_eq!(period_len(QuotaPeriod::Weekly), Some(604_800_000));
    assert_eq!(period_len(QuotaPeriod::Monthly), Some(2_592_000_000));
    assert_eq!(period_len(QuotaPeriod::Total), None);
    assert_eq!(state_path(None, "quota.json"), "/var/lib/curb/quota.json");
    assert_eq!(state_path(Some("/tmp/s"), "usage.json"), "/tmp/s/usage.json");
    assert_eq!(state_path(Some("/tmp/s/"), "usage.json"), "/tmp/s/usage.json");
    assert_eq!(totals_for(&vec![stat("/a", 1, 2), stat("/b", 3, 4)], "/b"), (3, 4));
    assert_eq!(totals_for(&Vec::new(), "/b"), (0, 0));
}
