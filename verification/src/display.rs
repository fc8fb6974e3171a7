//! What the command line shows: rates, byte counts, durations and tables.

use vstd::arithmetic::power2::{
    lemma2_to64, lemma2_to64_rest, lemma_pow2_adds, lemma_pow2_strictly_increases, pow2,
};
use vstd::prelude::*;

use crate::binary64::{
    binary64, half_even, lemma_exact, lemma_parts, lemma_positive_has_magnitude, lemma_reaches_less,
    lemma_up_pos, lifted, magnitude, nearest, reaches, round_div, up,
};
use crate::natural::Natural;
use crate::number::{copies, dec, decimal, left_aligned, pad_left, pad_right, repeat, right_aligned};
use crate::proto::{AppStat, DaemonStatus, HostTotals, LimiterState, MonitorSnapshot};
use crate::text::{chars, ends_with, starts_with, text};

verus! {

/// Rows of the live view.
pub const TOP_ROWS: usize = 25;

/// Width of the column of names.
pub const NAME_WIDTH: usize = 28;

// ---- Numbers -----------------------------------------------------------------

/// Tenths in `count * factor / scale`, computed in the binary64 format: the count
/// is rounded to it, then the quotient; the tenths are the nearest, ties to even.
pub open spec fn tenths(count: nat, factor: nat, scale: nat) -> nat {
    let (m, k) = binary64(count, 1);
    let (n, j) = binary64(m * factor * up(k), scale * up(-k));
    half_even(n * 10 * up(j), up(-j))
}

/// A number of tenths with one digit after the point.
pub open spec fn point_text(t: nat) -> Seq<char> {
    decimal(t / 10) + "."@ + decimal(t % 10)
}

proof fn lemma_moderate(num: nat, den: nat)
    requires
        0 < num < pow2(200),
        0 < den < pow2(200),
    ensures
        reaches(num, den, -200),
        !reaches(num, den, 200),
{
    let p = pow2(200);
    assert(up(200) == p);
    assert(num * p >= den * 1) by (nonlinear_arith)
        requires
            num >= 1,
            den < p,
    ;
    assert(num * 1 < den * p) by (nonlinear_arith)
        requires
            den >= 1,
            num < p,
    ;
}

proof fn lemma_powers()
    ensures
        pow2(0) == 1,
        pow2(3) == 8,
        pow2(48) == 0x1_0000_0000_0000,
        pow2(52) == 0x10_0000_0000_0000,
        pow2(53) == 0x20_0000_0000_0000,
        pow2(11) == 2048,
        pow2(64) == 0x1_0000_0000_0000_0000,
        pow2(200) > 0x1_0000_0000_0000_0000_0000_0000_0000_0000,
{
    lemma2_to64();
    lemma2_to64_rest();
    lemma_pow2_adds(64, 64);
    lemma_pow2_strictly_increases(128, 200);
}

/// The parts of a count in the format.
proof fn lemma_count_parts(count: u64)
    requires
        count > 0,
    ensures
        -52 <= binary64(count as nat, 1).1 <= 11,
        binary64(count as nat, 1).1 > 0 ==> count >= 0x20_0000_0000_0000,
        0x10_0000_0000_0000 <= binary64(count as nat, 1).0 <= 0x20_0000_0000_0000,
{
    lemma_powers();
    let n = count as nat;
    assert(n * 1 == n) by (nonlinear_arith);
    lemma_positive_has_magnitude(n, 1);
    let t = magnitude(n, 1);
    assert(reaches(n, 1, 0));
    if t < 0 {
        lemma_reaches_less(n, 1, t + 1, 0);
    }
    assert(!reaches(n, 1, 64)) by {
        assert(up(64) == pow2(64));
        assert(1 * pow2(64) == pow2(64)) by (nonlinear_arith);
    }
    if t >= 64 {
        lemma_reaches_less(n, 1, 64, t);
    }
    if t > 52 {
        lemma_reaches_less(n, 1, 53, t);
        assert(up(53) == pow2(53));
        assert(1 * pow2(53) == pow2(53)) by (nonlinear_arith);
    }
    lemma_parts(n, 1, t);
}

/// The quotient is not too large for its tenths to be told.
proof fn lemma_quotient(m: nat, k: int, factor: nat, scale: nat)
    requires
        0x10_0000_0000_0000 <= m <= 0x20_0000_0000_0000,
        -52 <= k <= 11,
        1 <= factor <= 8,
        512 <= scale <= 0x1_0000_0000,
        k > 0 ==> scale >= 0x2000_0000,
    ensures
        0 < m * factor * up(k) < pow2(200),
        0 < scale * up(-k) < pow2(200),
        !reaches(m * factor * up(k), scale * up(-k), 48),
{
    lemma_powers();
    lemma_up_pos(k);
    lemma_up_pos(-k);
    if k > 0 {
        if k < 11 {
            lemma_pow2_strictly_increases(k as nat, 11);
        }
    }
    if k < 0 {
        if -k < 52 {
            lemma_pow2_strictly_increases((-k) as nat, 52);
        }
    }
    let (a, b) = (up(k), up(-k));
    assert(a <= 2048 && b <= 0x10_0000_0000_0000);
    let num = m * factor * a;
    let den = scale * b;
    assert(num > 0 && num <= 0x20_0000_0000_0000 * 8 * 2048) by (nonlinear_arith)
        requires
            0 < m <= 0x20_0000_0000_0000,
            1 <= factor <= 8,
            0 < a <= 2048,
            num == m * factor * a,
    ;
    assert(den >= scale && den <= 0x1_0000_0000 * 0x10_0000_0000_0000) by (nonlinear_arith)
        requires
            0 < scale <= 0x1_0000_0000,
            0 < b <= 0x10_0000_0000_0000,
            den == scale * b,
    ;
    assert(up(48) == pow2(48));
    if k <= 0 {
        assert(num <= 0x20_0000_0000_0000 * 8) by (nonlinear_arith)
            requires
                m <= 0x20_0000_0000_0000,
                factor <= 8,
                num == m * factor * 1,
        ;
    }
    assert(num * 1 < den * 0x1_0000_0000_0000);
}

fn count_tenths(count: u64, factor: u32, scale: u64) -> (r: u64)
    requires
        count > 0,
        1 <= factor <= 8,
        512 <= scale <= 0x1_0000_0000,
        count >= 0x20_0000_0000_0000 ==> scale >= 0x2000_0000,
    ensures
        r == tenths(count as nat, factor as nat, scale as nat),
{
    let one: Natural = Natural::from_small(1);
    let n: Natural = Natural::from_u64(count);
    proof {
        lemma_powers();
        lemma_moderate(count as nat, 1);
        lemma_count_parts(count);
    }
    let (m, k) = nearest(&n, &one);
    let mut p: Natural = Natural::from_u64(m);
    p.scale(factor, 0);
    let num: Natural = lifted(&p, k);
    let s: Natural = Natural::from_u64(scale);
    let den: Natural = lifted(&s, -k);
    proof {
        lemma_quotient(m as nat, k as int, factor as nat, scale as nat);
        lemma_moderate(num@, den@);
    }
    let (q, j) = nearest(&num, &den);
    let mut t: Natural = Natural::from_u64(q);
    t.scale(10, 0);
    let top: Natural = lifted(&t, j);
    let bottom: Natural = lifted(&one, -j);
    proof {
        lemma_positive_has_magnitude(num@, den@);
        let g = magnitude(num@, den@);
        if g >= 48 {
            lemma_reaches_less(num@, den@, 48, g);
        }
        if g < -200 {
            lemma_reaches_less(num@, den@, g + 1, -200);
        }
        lemma_parts(num@, den@, g);
        assert(j <= -5);
        lemma_up_pos(-j as int);
        assert(up(j as int) == 1);
        assert(1 * up(-j as int) == up(-j as int)) by (nonlinear_arith);
        assert((q as nat * 10) * 1 == q as nat * 10) by (nonlinear_arith);
        if j < -5 {
            lemma_pow2_strictly_increases(5, (-j) as nat);
        }
        lemma2_to64();
        let b = up(-j as int);
        assert(b >= 32);
        assert(q as nat * 10 < b * pow2(53)) by (nonlinear_arith)
            requires
                q as nat <= pow2(53),
                b >= 32,
                pow2(53) > 0,
        ;
    }
    round_div(top, &bottom)
}

fn point(t: u64) -> (r: String)
    ensures
        r@ == point_text(t as nat),
{
    let mut r: String = dec(t / 10);
    r.append(".");
    let d: String = dec(t % 10);
    r.append(d.as_str());
    r
}

/// A rate in bits per second, in the greatest unit that it reaches.
pub open spec fn rate_shown(bytes_per_sec: u64) -> Seq<char> {
    let b = bytes_per_sec as nat;
    if b * 8 >= 1_000_000_000 {
        point_text(tenths(b, 8, 1_000_000_000)) + " Gbit"@
    } else if b * 8 >= 1_000_000 {
        point_text(tenths(b, 8, 1_000_000)) + " Mbit"@
    } else if b * 8 >= 1_000 {
        point_text(tenths(b, 8, 1_000)) + " Kbit"@
    } else {
        decimal(b * 8) + " bit"@
    }
}

/// Show a rate in bits per second.
pub fn format_rate(bytes_per_sec: u64) -> (r: String)
    ensures
        r@ == rate_shown(bytes_per_sec),
{
    let b: u64 = bytes_per_sec;
    if b >= 125_000_000 {
        let mut r: String = point(count_tenths(b, 8, 1_000_000_000));
        r.append(" Gbit");
        r
    } else if b >= 125_000 {
        let mut r: String = point(count_tenths(b, 8, 1_000_000));
        r.append(" Mbit");
        r
    } else if b >= 125 {
        let mut r: String = point(count_tenths(b, 8, 1_000));
        r.append(" Kbit");
        r
    } else {
        let mut r: String = dec(b * 8);
        r.append(" bit");
        r
    }
}

/// A byte count in the greatest binary unit that it reaches.
pub open spec fn bytes_shown(bytes: u64) -> Seq<char> {
    let b = bytes as nat;
    if b >= 0x4000_0000 {
        point_text(tenths(b, 1, 0x4000_0000)) + " GB"@
    } else if b >= 0x10_0000 {
        point_text(tenths(b, 1, 0x10_0000)) + " MB"@
    } else if b >= 0x400 {
        point_text(tenths(b, 1, 0x400)) + " KB"@
    } else {
        decimal(b) + " B"@
    }
}

/// Show a byte count.
pub fn format_bytes(bytes: u64) -> (r: String)
    ensures
        r@ == bytes_shown(bytes),
{
    if bytes >= 0x4000_0000 {
        let mut r: String = point(count_tenths(bytes, 1, 0x4000_0000));
        r.append(" GB");
        r
    } else if bytes >= 0x10_0000 {
        let mut r: String = point(count_tenths(bytes, 1, 0x10_0000));
        r.append(" MB");
        r
    } else if bytes >= 0x400 {
        let mut r: String = point(count_tenths(bytes, 1, 0x400));
        r.append(" KB");
        r
    } else {
        let mut r: String = dec(bytes);
        r.append(" B");
        r
    }
}

// ---- Texts -------------------------------------------------------------------

/// Text cut to at most `max` characters; what is cut off leaves an ellipsis.
pub open spec fn cut(s: Seq<char>, max: int) -> Seq<char> {
    if s.len() <= max {
        s
    } else {
        s.take(if max > 0 {
            max - 1
        } else {
            0
        }).push('…')
    }
}

/// Text that is cut fits, as long as there is room for the ellipsis.
pub proof fn law_cut_fits(s: Seq<char>, max: int)
    requires
        max >= 1,
    ensures
        cut(s, max).len() <= max,
{
}

/// Cut text to at most `max` characters.
pub fn truncate(s: &str, max: usize) -> (r: String)
    ensures
        r@ == cut(s@, max as int),
{
    let v: Vec<char> = chars(s);
    if v.len() <= max {
        s.to_string()
    } else {
        let n: usize = if max > 0 {
            max - 1
        } else {
            0
        };
        let mut r: String = text(&v, 0, n);
        r.push('…');
        assert(r@ =~= cut(s@, max as int));
        r
    }
}

/// A duration by days, hours, minutes and seconds, without the leading ones that
/// are zero.
pub open spec fn uptime_shown(secs: u64) -> Seq<char> {
    let d = decimal((secs / 86_400) as nat) + "d"@;
    let h = decimal((secs / 3_600 % 24) as nat) + "h"@;
    let m = decimal((secs / 60 % 60) as nat) + "m"@;
    let s = decimal((secs % 60) as nat) + "s"@;
    if secs >= 86_400 {
        d + " "@ + h + " "@ + m + " "@ + s
    } else if secs >= 3_600 {
        h + " "@ + m + " "@ + s
    } else if secs >= 60 {
        m + " "@ + s
    } else {
        s
    }
}

fn push_count(out: &mut String, n: u64, unit: &str)
    ensures
        final(out)@ == old(out)@ + (decimal(n as nat) + unit@),
{
    let t: String = dec(n);
    out.append(t.as_str());
    out.append(unit);
    assert(out@ =~= old(out)@ + (decimal(n as nat) + unit@));
}

/// Show a duration.
pub fn format_uptime(secs: u64) -> (r: String)
    ensures
        r@ == uptime_shown(secs),
{
    let (d, h, m, s): (u64, u64, u64, u64) = (
        secs / 86_400,
        secs / 3_600 % 24,
        secs / 60 % 60,
        secs % 60,
    );
    let mut out: String = String::new();
    let mut started: bool = false;
    if d > 0 {
        push_count(&mut out, d, "d");
        out.append(" ");
        started = true;
    }
    if h > 0 || started {
        push_count(&mut out, h, "h");
        out.append(" ");
        started = true;
    }
    if m > 0 || started {
        push_count(&mut out, m, "m");
        out.append(" ");
    }
    push_count(&mut out, s, "s");
    assert(out@ =~= uptime_shown(secs));
    out
}

/// Lines that show the state of the daemon.
pub open spec fn status_shown(s: DaemonStatus) -> Seq<char> {
    "curbd v"@ + s.daemon_version@ + "  (pid "@ + decimal(s.pid as nat) + ")\n  protocol : v"@
        + decimal(s.protocol_version as nat) + "\n  uptime   : "@ + uptime_shown(s.uptime_secs)
        + "\n  limiter  : "@ + (if s.limiter_enabled {
        "on"@
    } else {
        "off"@
    }) + "\n"@
}

/// Show the state of the daemon.
pub fn format_status(s: &DaemonStatus) -> (r: String)
    ensures
        r@ == status_shown(*s),
{
    let mut out: String = "curbd v".to_string();
    out.append(s.daemon_version.as_str());
    out.append("  (pid ");
    let pid: String = dec(s.pid as u64);
    out.append(pid.as_str());
    out.append(")\n  protocol : v");
    let version: String = dec(s.protocol_version as u64);
    out.append(version.as_str());
    out.append("\n  uptime   : ");
    let uptime: String = format_uptime(s.uptime_secs);
    out.append(uptime.as_str());
    out.append("\n  limiter  : ");
    if s.limiter_enabled {
        out.append("on");
    } else {
        out.append("off");
    }
    out.append("\n");
    out
}

/// A cap, or the word that stands for none.
pub open spec fn cap_shown(cap: Option<u64>) -> Seq<char> {
    match cap {
        Some(c) => rate_shown(c),
        None => "unlimited"@,
    }
}

fn format_cap(cap: Option<u64>) -> (r: String)
    ensures
        r@ == cap_shown(cap),
{
    match cap {
        Some(c) => format_rate(c),
        None => "unlimited".to_string(),
    }
}

/// Lines that show the state of the limiter.
pub open spec fn limiter_shown(s: LimiterState) -> Seq<char> {
    "limiter  : "@ + (if s.enabled {
        "ON"@
    } else {
        "OFF"@
    }) + "   (interface "@ + s.interface@ + ")\n  ↓ down : "@ + cap_shown(s.host.down_bps)
        + "\n  ↑ up   : "@ + cap_shown(s.host.up_bps) + "\n"@
}

/// Show the state of the limiter.
pub fn print_limiter(s: &LimiterState) -> (r: String)
    ensures
        r@ == limiter_shown(*s),
{
    let mut out: String = "limiter  : ".to_string();
    if s.enabled {
        out.append("ON");
    } else {
        out.append("OFF");
    }
    out.append("   (interface ");
    out.append(s.interface.as_str());
    out.append(")\n  ↓ down : ");
    let down: String = format_cap(s.host.down_bps);
    out.append(down.as_str());
    out.append("\n  ↑ up   : ");
    let up_text: String = format_cap(s.host.up_bps);
    out.append(up_text.as_str());
    out.append("\n");
    out
}

// ---- The table of applications -----------------------------------------------

/// One row: a column of names on the left, five columns of figures on the right.
pub open spec fn row(
    name: Seq<char>,
    pids: Seq<char>,
    down: Seq<char>,
    up_rate: Seq<char>,
    down_total: Seq<char>,
    up_total: Seq<char>,
) -> Seq<char> {
    "  "@ + left_aligned(name, 28, ' ') + " "@ + right_aligned(pids, 3, ' ') + "  "@
        + right_aligned(down, 11, ' ') + "  "@ + right_aligned(up_rate, 11, ' ') + "  "@
        + right_aligned(down_total, 9, ' ') + "  "@ + right_aligned(up_total, 9, ' ') + "\n"@
}

/// The line on the whole host.
pub open spec fn host_row(h: HostTotals) -> Seq<char> {
    "  HOST   ↓ "@ + right_aligned(rate_shown(h.down_bps), 11, ' ') + "  ↑ "@ + right_aligned(
        rate_shown(h.up_bps),
        11,
        ' ',
    ) + "     (total ↓ "@ + bytes_shown(h.down_total) + " / ↑ "@ + bytes_shown(h.up_total)
        + ")\n"@
}

/// The line on one application.
pub open spec fn app_row(a: AppStat) -> Seq<char> {
    row(
        cut(a.name@, 28),
        decimal(a.pids as nat),
        rate_shown(a.down_bps),
        rate_shown(a.up_bps),
        bytes_shown(a.down_total),
        bytes_shown(a.up_total),
    )
}

/// The lines on applications.
pub open spec fn app_rows(apps: Seq<AppStat>) -> Seq<char>
    decreases apps.len(),
{
    if apps.len() == 0 {
        Seq::empty()
    } else {
        app_rows(apps.drop_last()) + app_row(apps.last())
    }
}

/// The table of a snapshot with at most `max_rows` applications.
pub open spec fn table(snap: MonitorSnapshot, max_rows: int) -> Seq<char> {
    host_row(snap.host) + row(
        "APPLICATION"@,
        "PID"@,
        "↓ RATE"@,
        "↑ RATE"@,
        "↓ TOTAL"@,
        "↑ TOTAL"@,
    ) + ("  "@ + copies('─', 80) + "\n"@) + (if snap.apps@.len() == 0 {
        "  (no traffic observed yet)\n"@
    } else {
        app_rows(
            snap.apps@.take(if snap.apps@.len() < max_rows {
                snap.apps@.len() as int
            } else {
                max_rows
            }),
        )
    })
}

fn push_row(
    out: &mut String,
    name: &str,
    pids: &str,
    down: &str,
    up_rate: &str,
    down_total: &str,
    up_total: &str,
)
    ensures
        final(out)@ == old(out)@ + row(name@, pids@, down@, up_rate@, down_total@, up_total@),
{
    let name: String = pad_right(name, NAME_WIDTH, ' ');
    let pids: String = pad_left(pids, 3, ' ');
    let down: String = pad_left(down, 11, ' ');
    let up_rate: String = pad_left(up_rate, 11, ' ');
    let down_total: String = pad_left(down_total, 9, ' ');
    let up_total: String = pad_left(up_total, 9, ' ');
    let mut line: String = "  ".to_string();
    line.append(name.as_str());
    line.append(" ");
    line.append(pids.as_str());
    line.append("  ");
    line.append(down.as_str());
    line.append("  ");
    line.append(up_rate.as_str());
    line.append("  ");
    line.append(down_total.as_str());
    line.append("  ");
    line.append(up_total.as_str());
    line.append("\n");
    out.append(line.as_str());
}

fn format_host(h: &HostTotals) -> (r: String)
    ensures
        r@ == host_row(*h),
{
    let mut out: String = "  HOST   ↓ ".to_string();
    let down: String = pad_left(format_rate(h.down_bps).as_str(), 11, ' ');
    out.append(down.as_str());
    out.append("  ↑ ");
    let up_rate: String = pad_left(format_rate(h.up_bps).as_str(), 11, ' ');
    out.append(up_rate.as_str());
    out.append("     (total ↓ ");
    let down_total: String = format_bytes(h.down_total);
    out.append(down_total.as_str());
    out.append(" / ↑ ");
    let up_total: String = format_bytes(h.up_total);
    out.append(up_total.as_str());
    out.append(")\n");
    out
}

fn push_app(out: &mut String, a: &AppStat)
    ensures
        final(out)@ == old(out)@ + app_row(*a),
{
    let name: String = truncate(a.name.as_str(), NAME_WIDTH);
    let pids: String = dec(a.pids as u64);
    let down: String = format_rate(a.down_bps);
    let up_rate: String = format_rate(a.up_bps);
    let down_total: String = format_bytes(a.down_total);
    let up_total: String = format_bytes(a.up_total);
    push_row(
        out,
        name.as_str(),
        pids.as_str(),
        down.as_str(),
        up_rate.as_str(),
        down_total.as_str(),
        up_total.as_str(),
    );
}

/// Show the host and its applications, at most `max_rows` of them.
pub fn render_table(snap: &MonitorSnapshot, max_rows: usize) -> (r: String)
    ensures
        r@ == table(*snap, max_rows as int),
{
    let mut out: String = format_host(&snap.host);
    push_row(&mut out, "APPLICATION", "PID", "↓ RATE", "↑ RATE", "↓ TOTAL", "↑ TOTAL");
    let rule: String = repeat('─', 80);
    let ghost before = out@;
    out.append("  ");
    out.append(rule.as_str());
    out.append("\n");
    assert(out@ =~= before + ("  "@ + copies('─', 80) + "\n"@));
    if snap.apps.len() == 0 {
        out.append("  (no traffic observed yet)\n");
        return out;
    }
    let ghost head = out@;
    let n: usize = if snap.apps.len() < max_rows {
        snap.apps.len()
    } else {
        max_rows
    };
    assert(snap.apps@.take(0) =~= Seq::<AppStat>::empty());
    assert(out@ =~= head + app_rows(snap.apps@.take(0)));
    for i in 0..n
        invariant
            n <= snap.apps@.len(),
            out@ == head + app_rows(snap.apps@.take(i as int)),
    {
        assert(snap.apps@.take(i + 1).drop_last() =~= snap.apps@.take(i as int));
        push_app(&mut out, &snap.apps[i]);
        assert(out@ =~= head + app_rows(snap.apps@.take(i + 1)));
    }
    out
}

// ---- Laws --------------------------------------------------------------------

/// A whole number of a unit has no tenths beside: nothing is lost on the way through the
/// binary64 format.
pub proof fn law_whole_units_have_no_tenths(count: nat, factor: nat, scale: nat, v: nat)
    requires
        0 < count < 0x20_0000_0000_0000,
        0 < v < 0x20_0000_0000_0000,
        0 < scale,
        count * factor == v * scale,
    ensures
        tenths(count, factor, scale) == 10 * v,
{
    lemma_powers();
    lemma2_to64();
    lemma2_to64_rest();
    assert(count * 1 == count) by (nonlinear_arith);
    lemma_exact(count, 1, count);
    let (m, k) = binary64(count, 1);
    let w = up(-k);
    lemma_up_pos(-k);
    let num = m * factor * up(k);
    let den = scale * w;
    assert(num == v * den) by (nonlinear_arith)
        requires
            num == m * factor * 1,
            m == count * w,
            count * factor == v * scale,
            den == scale * w,
    ;
    assert(den > 0) by (nonlinear_arith)
        requires
            den == scale * w,
            scale > 0,
            w > 0,
    ;
    lemma_exact(num, den, v);
    let (n, j) = binary64(num, den);
    let b = up(-j);
    lemma_up_pos(-j);
    let top = n * 10 * up(j);
    assert(top == (10 * v) * b + 0) by (nonlinear_arith)
        requires
            top == n * 10 * 1,
            n == v * b,
    ;
    vstd::arithmetic::div_mod::lemma_fundamental_div_mod_converse(
        top as int,
        b as int,
        (10 * v) as int,
        0,
    );
}

proof fn lemma_whole_point(v: nat)
    ensures
        point_text(10 * v) == decimal(v) + ".0"@,
{
    reveal_strlit(".");
    reveal_strlit(".0");
    reveal_with_fuel(crate::number::numeral, 2);
    assert(decimal(0) =~= seq!['0']);
    assert(".0"@ =~= "."@ + decimal(0));
    assert(point_text(10 * v) =~= decimal(v) + ".0"@);
}

/// Byte counts are shown in powers of 1024, whole ones with no tenths beside: up to a
/// unit in the next smaller one, and from there on in it.
pub proof fn law_byte_counts_are_shown(n: u64)
    ensures
        n < 1024 ==> bytes_shown(n) == decimal(n as nat) + " B"@,
        1 <= n < 1024 ==> bytes_shown((n * 1024) as u64) == decimal(n as nat) + ".0"@ + " KB"@,
        1 <= n < 1024 ==> bytes_shown((n * 1024 * 1024) as u64) == decimal(n as nat) + ".0"@
            + " MB"@,
        1 <= n < 0x80_0000 ==> bytes_shown((n * 1024 * 1024 * 1024) as u64) == decimal(n as nat)
            + ".0"@ + " GB"@,
{
    lemma_whole_point(n as nat);
    if 1 <= n < 1024 {
        law_whole_units_have_no_tenths((n * 1024) as nat, 1, 0x400, n as nat);
        law_whole_units_have_no_tenths((n * 0x10_0000) as nat, 1, 0x10_0000, n as nat);
    }
    if 1 <= n < 0x80_0000 {
        law_whole_units_have_no_tenths((n * 0x4000_0000) as nat, 1, 0x4000_0000, n as nat);
    }
}

/// Rates are shown in bits, eight for each byte, in powers of a thousand, whole ones with
/// no tenths beside.
pub proof fn law_rates_are_shown(n: u64)
    ensures
        n < 125 ==> rate_shown(n) == decimal((8 * n) as nat) + " bit"@,
        1 <= n < 1000 ==> rate_shown((n * 125) as u64) == decimal(n as nat) + ".0"@ + " Kbit"@,
        1 <= n < 1000 ==> rate_shown((n * 125_000) as u64) == decimal(n as nat) + ".0"@
            + " Mbit"@,
        1 <= n < 0x400_0000 ==> rate_shown((n * 125_000_000) as u64) == decimal(n as nat) + ".0"@
            + " Gbit"@,
{
    lemma_whole_point(n as nat);
    if 1 <= n < 1000 {
        law_whole_units_have_no_tenths((n * 125) as nat, 8, 1_000, n as nat);
        law_whole_units_have_no_tenths((n * 125_000) as nat, 8, 1_000_000, n as nat);
    }
    if 1 <= n < 0x400_0000 {
        law_whole_units_have_no_tenths((n * 125_000_000) as nat, 8, 1_000_000_000, n as nat);
    }
}

/// A number of tenths is shown with a point before its last digit.
pub proof fn law_tenths_are_shown(whole: nat, tenth: nat)
    requires
        tenth < 10,
    ensures
        point_text(10 * whole + tenth) == decimal(whole) + seq!['.'] + decimal(tenth),
{
    reveal_strlit(".");
    assert("."@ =~= seq!['.']);
}

/// Text that fits is shown as it is; of other text all that fits before an ellipsis.
pub proof fn law_cut_keeps_the_beginning(s: Seq<char>, max: int)
    requires
        max >= 1,
    ensures
        s.len() <= max ==> cut(s, max) == s,
        s.len() > max ==> cut(s, max).len() == max && cut(s, max).last() == '…' && cut(
            s,
            max,
        ).drop_last() == s.take(max - 1),
{
    if s.len() > max {
        assert(cut(s, max).drop_last() =~= s.take(max - 1));
    }
}

/// A duration is shown by its days, hours, minutes and seconds.
pub proof fn law_durations_are_shown(d: u64, h: u64, m: u64, s: u64)
    requires
        d <= 1_000_000_000,
        h < 24,
        m < 60,
        s < 60,
    ensures
        ({
            let secs = (86_400 * d + 3_600 * h + 60 * m + s) as u64;
            let dt = decimal(d as nat) + "d"@;
            let ht = decimal(h as nat) + "h"@;
            let mt = decimal(m as nat) + "m"@;
            let st = decimal(s as nat) + "s"@;
            &&& d > 0 ==> uptime_shown(secs) == dt + " "@ + ht + " "@ + mt + " "@ + st
            &&& d == 0 && h > 0 ==> uptime_shown(secs) == ht + " "@ + mt + " "@ + st
            &&& d == 0 && h == 0 && m > 0 ==> uptime_shown(secs) == mt + " "@ + st
            &&& d == 0 && h == 0 && m == 0 ==> uptime_shown(secs) == st
        }),
{
    let secs = (86_400 * d + 3_600 * h + 60 * m + s) as u64;
    assert(secs / 86_400 == d);
    assert(secs / 3_600 == 24 * d + h);
    assert(secs / 3_600 % 24 == h);
    assert(secs / 60 == 1440 * d + 60 * h + m);
    assert(secs / 60 % 60 == m);
    assert(secs % 60 == s);
}

/// Text is brought to the width of its column by blanks on the other side, and never cut.
pub proof fn law_columns_are_filled(s: Seq<char>, width: int, i: int)
    requires
        width >= 0,
    ensures
        right_aligned(s, width, ' ').len() == if s.len() < width {
            width
        } else {
            s.len() as int
        },
        left_aligned(s, width, ' ').len() == right_aligned(s, width, ' ').len(),
        left_aligned(s, width, ' ').take(s.len() as int) == s,
        right_aligned(s, width, ' ').skip(right_aligned(s, width, ' ').len() - s.len()) == s,
        0 <= i < width - s.len() ==> right_aligned(s, width, ' ')[i] == ' ',
        s.len() <= i < width ==> left_aligned(s, width, ' ')[i] == ' ',
{
    let l = left_aligned(s, width, ' ');
    let r = right_aligned(s, width, ' ');
    assert(l.take(s.len() as int) =~= s);
    assert(r.skip(r.len() - s.len()) =~= s);
}

/// A row holds all its columns in order, each filled to its width.
pub proof fn law_row_holds_its_columns(
    name: Seq<char>,
    pids: Seq<char>,
    down: Seq<char>,
    up_rate: Seq<char>,
    down_total: Seq<char>,
    up_total: Seq<char>,
)
    requires
        name.len() <= 28,
        pids.len() <= 3,
        down.len() <= 11,
        up_rate.len() <= 11,
        down_total.len() <= 9,
        up_total.len() <= 9,
    ensures
        ({
            let r = row(name, pids, down, up_rate, down_total, up_total);
            &&& r.len() == 83
            &&& r.last() == '\n'
            &&& r.subrange(2, 2 + name.len() as int) == name
            &&& r.subrange(34 - pids.len(), 34) == pids
            &&& r.subrange(47 - down.len(), 47) == down
            &&& r.subrange(60 - up_rate.len(), 60) == up_rate
            &&& r.subrange(71 - down_total.len(), 71) == down_total
            &&& r.subrange(82 - up_total.len(), 82) == up_total
        }),
{
    reveal_strlit("  ");
    reveal_strlit(" ");
    reveal_strlit("\n");
    let r = row(name, pids, down, up_rate, down_total, up_total);
    assert(r.subrange(2, 2 + name.len() as int) =~= name);
    assert(r.subrange(34 - pids.len(), 34) =~= pids);
    assert(r.subrange(47 - down.len(), 47) =~= down);
    assert(r.subrange(60 - up_rate.len(), 60) =~= up_rate);
    assert(r.subrange(71 - down_total.len(), 71) =~= down_total);
    assert(r.subrange(82 - up_total.len(), 82) =~= up_total);
}

/// Every application has its line: the lines of applications and of further ones are
/// those of all.
pub proof fn law_every_application_has_a_line(a: Seq<AppStat>, b: Seq<AppStat>)
    ensures
        app_rows(a + b) == app_rows(a) + app_rows(b),
        app_rows(Seq::empty()) == Seq::<char>::empty(),
    decreases b.len(),
{
    if b.len() == 0 {
        assert(a + b =~= a);
        lemma_nothing_follows(app_rows(a));
    } else {
        let rest = b.drop_last();
        law_every_application_has_a_line(a, rest);
        assert((a + b).drop_last() =~= a + rest);
        assert((a + b).last() == b.last());
        lemma_texts_follow(app_rows(a), app_rows(rest), app_row(b.last()));
    }
}

proof fn lemma_texts_follow(a: Seq<char>, b: Seq<char>, c: Seq<char>)
    ensures
        a + b + c == a + (b + c),
{
    assert(a + b + c =~= a + (b + c));
}

proof fn lemma_nothing_follows(a: Seq<char>)
    ensures
        a + Seq::<char>::empty() == a,
        Seq::<char>::empty() + a == a,
{
    assert(a + Seq::<char>::empty() =~= a);
    assert(Seq::<char>::empty() + a =~= a);
}

/// The line of an application shows its name, its processes, its rates and its totals.
pub proof fn law_line_of_an_application(x: AppStat)
    ensures
        app_rows(seq![x]) == row(
            cut(x.name@, 28),
            decimal(x.pids as nat),
            rate_shown(x.down_bps),
            rate_shown(x.up_bps),
            bytes_shown(x.down_total),
            bytes_shown(x.up_total),
        ),
{
    reveal_with_fuel(app_rows, 2);
    assert(seq![x].drop_last() =~= Seq::<AppStat>::empty());
    assert(seq![x].last() == x);
    lemma_nothing_follows(app_row(x));
}

/// A table ends with the lines of its applications: of all of them where they fit, and of
/// the first ones otherwise.
pub proof fn law_table_lists_the_first(snap: MonitorSnapshot, max_rows: int)
    requires
        snap.apps@.len() > 0,
        max_rows >= 0,
    ensures
        snap.apps@.len() <= max_rows ==> ends_with(table(snap, max_rows), app_rows(snap.apps@)),
        snap.apps@.len() > max_rows ==> ends_with(
            table(snap, max_rows),
            app_rows(snap.apps@.take(max_rows)),
        ),
{
    let apps = snap.apps@;
    let t = table(snap, max_rows);
    if apps.len() <= max_rows {
        assert(apps.take(apps.len() as int) =~= apps);
        assert(t.skip(t.len() - app_rows(apps).len()) =~= app_rows(apps));
    } else {
        let shown = app_rows(apps.take(max_rows));
        assert(t.skip(t.len() - shown.len()) =~= shown);
    }
}

/// The line of the host shows its rates and its totals, each by the arrow of its
/// direction.
pub proof fn law_line_of_the_host(h: HostTotals)
    ensures
        host_row(h) == "  HOST   ↓ "@ + right_aligned(rate_shown(h.down_bps), 11, ' ') + "  ↑ "@
            + right_aligned(rate_shown(h.up_bps), 11, ' ') + "     (total ↓ "@ + bytes_shown(
            h.down_total,
        ) + " / ↑ "@ + bytes_shown(h.up_total) + ")\n"@,
{
}

/// The state of the limiter shows its switch, its interface and its caps, each by the
/// arrow of its direction.
pub proof fn law_limiter_is_shown(s: LimiterState)
    ensures
        ({
            let down = if s.host.down_bps is Some {
                rate_shown(s.host.down_bps->0)
            } else {
                "unlimited"@
            };
            let up_cap = if s.host.up_bps is Some {
                rate_shown(s.host.up_bps->0)
            } else {
                "unlimited"@
            };
            let switch = if s.enabled {
                "ON"@
            } else {
                "OFF"@
            };
            limiter_shown(s) == "limiter  : "@ + switch + "   (interface "@ + s.interface@
                + ")\n  ↓ down : "@ + down + "\n  ↑ up   : "@ + up_cap + "\n"@
        }),
{
}

/// The state of the daemon shows its version, its process, its protocol, how long it has
/// been running, and whether the limiter is on.
pub proof fn law_daemon_is_shown(s: DaemonStatus)
    ensures
        ({
            let switch = if s.limiter_enabled {
                "on"@
            } else {
                "off"@
            };
            status_shown(s) == "curbd v"@ + s.daemon_version@ + "  (pid "@ + decimal(s.pid as nat)
                + ")\n  protocol : v"@ + decimal(s.protocol_version as nat) + "\n  uptime   : "@
                + uptime_shown(s.uptime_secs) + "\n  limiter  : "@ + switch + "\n"@
        }),
{
}

/// A table begins with the line of the host and the headings of its columns, and without
/// applications it says so.
pub proof fn law_table_begins_with_the_host(snap: MonitorSnapshot, max_rows: int)
    ensures
        ({
            let head = host_row(snap.host) + row(
                "APPLICATION"@,
                "PID"@,
                "↓ RATE"@,
                "↑ RATE"@,
                "↓ TOTAL"@,
                "↑ TOTAL"@,
            ) + ("  "@ + copies('─', 80) + "\n"@);
            &&& starts_with(table(snap, max_rows), head)
            &&& snap.apps@.len() == 0 ==> table(snap, max_rows) == head
                + "  (no traffic observed yet)\n"@
        }),
{
    let head = host_row(snap.host) + row(
        "APPLICATION"@,
        "PID"@,
        "↓ RATE"@,
        "↑ RATE"@,
        "↓ TOTAL"@,
        "↑ TOTAL"@,
    ) + ("  "@ + copies('─', 80) + "\n"@);
    let t = table(snap, max_rows);
    lemma_begins(head, t.skip(head.len() as int));
    assert(t =~= head + t.skip(head.len() as int));
}

proof fn lemma_begins(a: Seq<char>, b: Seq<char>)
    ensures
        starts_with(a + b, a),
{
    assert((a + b).take(a.len() as int) =~= a);
}

} // verus!
