use curb::calendar::{labels, month_start_str, today_str, week_start_str, Date, Labels};
use curb::proto::{AppStat, AppStatus, HostTotals, MonitorSnapshot};
use curb::usage::{save_due, AppEntry, AppUsage, Bucket, UsageTracker};

fn date(year: i32, month: u32, day: u32) -> Date {
    Date { year, month, day }
}

fn stat(exe: &str, down: u64, up: u64) -> AppStat {
    AppStat {
        exe: exe.to_string(),
        name: "x".to_string(),
        pids: 0,
        down_bps: 0,
        up_bps: 0,
        down_total: down,
        up_total: up,
        down_spark: Vec::new(),
        up_spark: Vec::new(),
        status: AppStatus::Watching,
        lan_down_bps: 0,
        lan_up_bps: 0,
        inet_down_bps: 0,
        inet_up_bps: 0,
    }
}

fn snap(apps: Vec<AppStat>) -> MonitorSnapshot {
    MonitorSnapshot { apps, host: HostTotals::default(), timestamp_ms: 0 }
}

#[test]
fn labels_name_day_week_and_month() {
    let l = labels(date(2026, 6, 11));
    assert_eq!(l.today, "2026-06-11");
    assert_eq!(l.week_start, "2026-06-08");
    assert_eq!(l.month_start, "2026-06-01");
}

#[test]
fn weeks_start_on_monday() {
    for day in 8..=14 {
        assert_eq!(week_start_str(date(2026, 6, day)), "2026-06-08");
    }
    assert_eq!(week_start_str(date(2026, 6, 15)), "2026-06-15");
    // Across the end of a month, of a year, and a leap day.
    assert_eq!(week_start_str(date(2026, 7, 1)), "2026-06-29");
    assert_eq!(week_start_str(date(2026, 1, 1)), "2025-12-29");
    assert_eq!(week_start_str(date(2024, 3, 1)), "2024-02-26");
    assert_eq!(week_start_str(date(1, 1, 7)), "0001-01-01");
    assert_eq!(week_start_str(date(0, 12, 31)), "0000-12-25");
}

#[test]
fn years_out_of_four_digits_have_a_sign() {
    assert_eq!(today_str(date(10000, 1, 2)), "+10000-01-02");
    assert_eq!(today_str(date(-1, 1, 2)), "-0001-01-02");
    assert_eq!(today_str(date(7, 11, 30)), "0007-11-30");
    assert_eq!(month_start_str(date(7, 11, 30)), "0007-11-01");
}

fn get(t: &UsageTracker, exe: &str) -> AppUsage {
    t.get_all().into_iter().find(|(e, _)| e == exe).unwrap().1
}

#[test]
fn buckets_fill_and_roll_over() {
    let monday = labels(date(2026, 6, 29));
    let tuesday = labels(date(2026, 6, 30));
    let wednesday = labels(date(2026, 7, 1));
    let next_week = labels(date(2026, 7, 6));
    let t = UsageTracker::new();
    // What was there before the first accounting is not charged.
    let t = t.tick(&snap(vec![stat("/a", 100, 10), stat("", 5, 5)]), &monday).unwrap();
    assert_eq!(t.get_all().len(), 1);
    assert_eq!(get(&t, "/a").month_down, 0);
    let t = t.tick(&snap(vec![stat("/a", 130, 15)]), &monday).unwrap();
    let t = t.tick(&snap(vec![stat("/a", 131, 15)]), &tuesday).unwrap();
    let u = get(&t, "/a");
    assert_eq!((u.today_down, u.today_up), (1, 0));
    assert_eq!((u.week_down, u.week_up), (31, 5));
    assert_eq!((u.month_down, u.month_up), (31, 5));
    let t = t.tick(&snap(vec![stat("/a", 133, 15)]), &wednesday).unwrap();
    let u = get(&t, "/a");
    assert_eq!((u.today_down, u.week_down, u.month_down), (2, 33, 2));
    let t = t.tick(&snap(vec![stat("/a", 137, 15)]), &next_week).unwrap();
    let u = get(&t, "/a");
    assert_eq!((u.today_down, u.week_down, u.month_down), (4, 4, 6));
}

#[test]
fn restart_keeps_what_was_counted() {
    let day = labels(date(2026, 6, 11));
    let mut t = UsageTracker::new();
    t.resume(
        "/a".to_string(),
        AppEntry {
            today: Bucket { down: 7, up: 8 },
            today_date: "2026-06-11".to_string(),
            week: Bucket { down: 70, up: 80 },
            week_start: "2026-06-08".to_string(),
            month: Bucket { down: 700, up: 800 },
            month_start: "2026-06-01".to_string(),
            last_down: 1000,
            last_up: 1000,
        },
    );
    let t = t.tick(&snap(vec![stat("/a", 50, 60)]), &day).unwrap();
    let u = get(&t, "/a");
    assert_eq!((u.today_down, u.today_up, u.week_down, u.month_up), (7, 8, 70, 800));
    let t = t.tick(&snap(vec![stat("/a", 51, 63)]), &day).unwrap();
    let u = get(&t, "/a");
    assert_eq!((u.today_down, u.today_up), (8, 11));
}

#[test]
fn bucket_that_runs_over_stops_the_accounting() {
    let day = labels(date(2026, 6, 11));
    let mut t = UsageTracker::new();
    t.resume(
        "/a".to_string(),
        AppEntry {
            today: Bucket { down: 0, up: 0 },
            today_date: "2026-06-11".to_string(),
            week: Bucket { down: 0, up: 0 },
            week_start: "2026-06-08".to_string(),
            month: Bucket { down: u64::MAX, up: 0 },
            month_start: "2026-06-01".to_string(),
            last_down: 0,
            last_up: 0,
        },
    );
    assert!(t.tick(&snap(vec![stat("/a", 1, 0)]), &day).is_none());
}

#[test]
fn data_is_stored_every_third_time() {
    let due: Vec<u32> = (1..=9).filter(|n| save_due(*n)).collect();
    assert_eq!(due, vec![3, 6, 9]);
    let l = Labels {
        today: "x".to_string(),
        week_start: "y".to_string(),
        month_start: "z".to_string(),
    };
    let t = UsageTracker::new().tick(&snap(vec![stat("/a", 1, 1)]), &l).unwrap();
    assert_eq!(get(&t, "/a").today_up, 0);
}
