//! The messages of the control protocol: what clients ask of the daemon and
//! what it answers. Rates are bytes per second throughout.

use vstd::prelude::*;

verus! {

/// Bumped whenever [`Request`] or [`Response`] change incompatibly.
pub const PROTOCOL_VERSION: u32 = 1;

/// Socket location of the packaged daemon.
pub const DEFAULT_SOCKET_PATH: &'static str = "/run/curbd.sock";

/// Resolve the control socket path from the value of `$CURB_SOCK`: the variable
/// wins where it is set, an empty one included.
pub fn socket_path(env: Option<String>) -> (r: String)
    ensures
        r@ == match env {
            Some(p) => p@,
            None => DEFAULT_SOCKET_PATH@,
        },
{
    match env {
        Some(p) => p,
        None => DEFAULT_SOCKET_PATH.to_string(),
    }
}

/// Traffic direction that a quota counts.
#[derive(Debug, Clone, Copy, PartialEq, Eq, Structural)]
pub enum Direction {
    /// Count download (inbound) bytes only.
    Down,
    /// Count upload (outbound) bytes only.
    Up,
    /// Count both directions.
    Both,
}

impl Default for Direction {
    fn default() -> (r: Direction)
        ensures
            r == Direction::Both,
    {
        Direction::Both
    }
}

/// How often the usage counter of a quota resets.
#[derive(Debug, Clone, Copy, PartialEq, Eq, Structural)]
pub enum QuotaPeriod {
    Hourly,
    Daily,
    Weekly,
    Monthly,
    /// Never resets: a lifetime cap.
    Total,
}

/// Which traffic a limit applies to, by class of the remote address. LAN is the
/// private and link-local ranges, Internet everything else.
#[derive(Debug, Clone, Copy, PartialEq, Eq, Structural)]
pub enum Scope {
    /// Apply to all remote addresses.
    Both,
    /// Apply only to LAN (private) remotes.
    Lan,
    /// Apply only to Internet (public) remotes.
    Internet,
}

impl Default for Scope {
    fn default() -> (r: Scope)
        ensures
            r == Scope::Both,
    {
        Scope::Both
    }
}

/// How the traffic of an application is being treated.
#[derive(Debug, Clone, Copy, PartialEq, Eq, Structural)]
pub enum AppStatus {
    /// Observed only: no limit applied.
    Watching,
    /// A rate limit is configured and being enforced.
    Limited,
    /// Clamped to near zero (a quota is exceeded).
    Throttled,
}

/// A directional pair of rate caps. `None` means unlimited in that direction.
#[derive(Debug, Clone, Copy)]
pub struct ScopedCap {
    /// Inbound (download) cap.
    pub down_bps: Option<u64>,
    /// Outbound (upload) cap.
    pub up_bps: Option<u64>,
}

impl ScopedCap {
    /// True if neither direction is capped.
    pub fn is_empty(&self) -> (r: bool)
        ensures
            r == (self.down_bps is None && self.up_bps is None),
    {
        self.down_bps.is_none() && self.up_bps.is_none()
    }
}

impl Default for ScopedCap {
    fn default() -> (r: ScopedCap)
        ensures
            r.down_bps is None,
            r.up_bps is None,
    {
        ScopedCap { down_bps: None, up_bps: None }
    }
}

/// Host-wide rate caps. The caps at the top apply to all host traffic; `lan` and
/// `internet` cap those zones separately on top of that.
#[derive(Debug, Clone, Copy)]
pub struct HostLimit {
    /// Total inbound cap across all traffic.
    pub down_bps: Option<u64>,
    /// Total outbound cap across all traffic.
    pub up_bps: Option<u64>,
    /// Caps on LAN (private-address) traffic.
    pub lan: ScopedCap,
    /// Caps on Internet (public-address) traffic.
    pub internet: ScopedCap,
}

impl HostLimit {
    /// Nothing is capped.
    pub open spec fn unlimited() -> HostLimit {
        HostLimit {
            down_bps: None,
            up_bps: None,
            lan: ScopedCap { down_bps: None, up_bps: None },
            internet: ScopedCap { down_bps: None, up_bps: None },
        }
    }
}

impl Default for HostLimit {
    fn default() -> (r: HostLimit)
        ensures
            r == HostLimit::unlimited(),
    {
        HostLimit {
            down_bps: None,
            up_bps: None,
            lan: ScopedCap { down_bps: None, up_bps: None },
            internet: ScopedCap { down_bps: None, up_bps: None },
        }
    }
}

/// A command sent from a client to the daemon.
#[derive(Debug, Clone)]
pub enum Request {
    /// Liveness check; expects [`Response::Pong`].
    Ping,
    /// Ask for a [`DaemonStatus`].
    GetStatus,
    /// Ask for the live traffic of each application.
    ListApps,
    /// Set the host-wide caps and enable limiting. `None` means unlimited. This
    /// replaces the entire host limit: callers merge first.
    SetHostLimit {
        down_bps: Option<u64>,
        up_bps: Option<u64>,
        lan_down_bps: Option<u64>,
        lan_up_bps: Option<u64>,
        inet_down_bps: Option<u64>,
        inet_up_bps: Option<u64>,
    },
    /// Flip the master switch without changing the configured caps.
    SetLimiterEnabled(bool),
    /// Read the limiter state.
    GetLimiter,
    /// Set the caps of an application, by executable path.
    SetAppLimit { exe: String, down_bps: Option<u64>, up_bps: Option<u64>, scope: Scope },
    /// Remove the rule of an application and stop tracking it.
    ClearAppLimit { exe: String },
    /// List the configured application rules.
    ListAppLimits,
    /// Set a data quota. When usage exceeds the budget within the period, the
    /// application is blocked until the period resets.
    SetQuota { exe: String, budget_bytes: u64, period: QuotaPeriod, direction: Direction },
    /// Remove the quota of an application.
    ClearQuota { exe: String },
    /// List the configured quotas with live usage.
    ListQuotas,
    /// List all active connections with the application that owns each.
    ListConnections,
}

/// A configured quota and its live usage.
#[derive(Debug, Clone)]
pub struct QuotaStatus {
    /// Absolute executable path that the quota targets.
    pub exe: String,
    /// Display name (last component of the path).
    pub name: String,
    /// Byte budget per period.
    pub budget_bytes: u64,
    /// Bytes used in the current period.
    pub used_bytes: u64,
    pub period: QuotaPeriod,
    /// Direction counted.
    pub direction: Direction,
    /// Whether the budget is exceeded (application blocked).
    pub exceeded: bool,
    /// Seconds until the period resets (`None` for [`QuotaPeriod::Total`]).
    pub resets_in_secs: Option<u64>,
}

/// One connection and the application that owns it.
#[derive(Debug, Clone)]
pub struct ConnectionInfo {
    /// Absolute executable path of the owner (empty if unknown).
    pub exe: String,
    /// Display name (last component of the path, or `?` if unknown).
    pub name: String,
    /// Owning process (0 if unknown).
    pub pid: u32,
    /// `TCP` or `UDP`.
    pub proto: String,
    /// Address and port, separated by a colon.
    pub local_addr: String,
    /// Address and port, separated by a colon.
    pub remote_addr: String,
    /// Name of the TCP state; `UDP` for UDP.
    pub state: String,
}

/// A bandwidth rule of one application, identified by executable path.
#[derive(Debug, Clone)]
pub struct AppLimit {
    /// Absolute executable path that the rule targets.
    pub exe: String,
    /// Display name (last component of the path).
    pub name: String,
    /// Inbound cap; `None` is unlimited.
    pub down_bps: Option<u64>,
    /// Outbound cap; `None` is unlimited.
    pub up_bps: Option<u64>,
    /// Which traffic the rule applies to.
    pub scope: Scope,
    /// Live processes tracked for this application.
    pub pids: u32,
}

/// Configuration of the limiter and its master switch.
#[derive(Debug)]
pub struct LimiterState {
    /// Master switch: when false nothing is shaped, even if caps are set.
    pub enabled: bool,
    /// Configured host-wide caps.
    pub host: HostLimit,
    /// The interface that is being shaped.
    pub interface: String,
}

impl Clone for LimiterState {
    fn clone(&self) -> (r: LimiterState)
        ensures
            r == *self,
    {
        LimiterState { enabled: self.enabled, host: self.host, interface: self.interface.clone() }
    }
}

/// The health of the daemon and its master switch.
#[derive(Debug, Clone)]
pub struct DaemonStatus {
    /// Protocol version that the daemon speaks.
    pub protocol_version: u32,
    /// Package version of the daemon.
    pub daemon_version: String,
    /// Process id of the daemon.
    pub pid: u32,
    /// Seconds since the daemon started serving.
    pub uptime_secs: u64,
    /// Master switch of the limiter.
    pub limiter_enabled: bool,
}

/// Live traffic of one application, identified by its executable path. Rates are
/// over the last sampling interval, totals since observation began.
#[derive(Debug, Clone)]
pub struct AppStat {
    /// Absolute executable path, empty for traffic without a known owner.
    pub exe: String,
    /// Display name.
    pub name: String,
    /// Number of live processes of this application.
    pub pids: u32,
    /// Current download rate.
    pub down_bps: u64,
    /// Current upload rate.
    pub up_bps: u64,
    /// Total bytes downloaded.
    pub down_total: u64,
    /// Total bytes uploaded.
    pub up_total: u64,
    /// Recent download rates, oldest first.
    pub down_spark: Vec<u32>,
    /// Recent upload rates, oldest first.
    pub up_spark: Vec<u32>,
    pub status: AppStatus,
    /// Rates attributed to LAN remote addresses.
    pub lan_down_bps: u64,
    pub lan_up_bps: u64,
    /// Rates attributed to Internet remote addresses.
    pub inet_down_bps: u64,
    pub inet_up_bps: u64,
}

/// Traffic of the whole host, with the rates split by zone.
#[derive(Debug, Clone, Copy)]
pub struct HostTotals {
    pub down_bps: u64,
    pub up_bps: u64,
    pub down_total: u64,
    pub up_total: u64,
    pub lan_down_bps: u64,
    pub lan_up_bps: u64,
    pub inet_down_bps: u64,
    pub inet_up_bps: u64,
}

impl HostTotals {
    /// No traffic.
    pub open spec fn zero() -> HostTotals {
        HostTotals {
            down_bps: 0,
            up_bps: 0,
            down_total: 0,
            up_total: 0,
            lan_down_bps: 0,
            lan_up_bps: 0,
            inet_down_bps: 0,
            inet_up_bps: 0,
        }
    }
}

impl Default for HostTotals {
    fn default() -> (r: HostTotals)
        ensures
            r == HostTotals::zero(),
    {
        HostTotals {
            down_bps: 0,
            up_bps: 0,
            down_total: 0,
            up_total: 0,
            lan_down_bps: 0,
            lan_up_bps: 0,
            inet_down_bps: 0,
            inet_up_bps: 0,
        }
    }
}

/// A complete view of live traffic at one moment.
#[derive(Debug, Clone)]
pub struct MonitorSnapshot {
    /// Applications, busiest first.
    pub apps: Vec<AppStat>,
    pub host: HostTotals,
    /// Milliseconds since the Unix epoch when this view was produced.
    pub timestamp_ms: u64,
}

impl Default for MonitorSnapshot {
    fn default() -> (r: MonitorSnapshot)
        ensures
            r.apps@.len() == 0,
            r.host == HostTotals::zero(),
            r.timestamp_ms == 0,
    {
        MonitorSnapshot { apps: Vec::new(), host: HostTotals::default(), timestamp_ms: 0 }
    }
}

/// The answer of the daemon to a [`Request`].
#[derive(Debug, Clone)]
pub enum Response {
    /// Answer to [`Request::Ping`].
    Pong,
    /// Answer to [`Request::GetStatus`].
    Status(DaemonStatus),
    /// Answer to [`Request::ListApps`].
    Apps(MonitorSnapshot),
    /// Answer to the limiter requests.
    Limiter(LimiterState),
    /// Answer to the requests on application rules.
    AppLimits(Vec<AppLimit>),
    /// Answer to the quota requests.
    Quotas(Vec<QuotaStatus>),
    /// Answer to [`Request::ListConnections`].
    Connections(Vec<ConnectionInfo>),
    /// Success without a payload.
    Done,
    /// The request could not be served.
    Error { message: String },
}

// ---- Laws --------------------------------------------------------------------

/// Where nothing is set, nothing is capped, in no direction and in no zone.
pub proof fn law_unlimited_caps_nothing()
    ensures
        HostLimit::unlimited().down_bps is None,
        HostLimit::unlimited().up_bps is None,
        HostLimit::unlimited().lan.down_bps is None,
        HostLimit::unlimited().lan.up_bps is None,
        HostLimit::unlimited().internet.down_bps is None,
        HostLimit::unlimited().internet.up_bps is None,
{
}

} // verus!
