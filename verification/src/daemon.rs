//! What the daemon does with a request, and what it answers.

use vstd::prelude::*;

use crate::proto::{
    AppLimit, DaemonStatus, Direction, HostLimit, LimiterState, QuotaPeriod, Request, Response,
    Scope, ScopedCap, PROTOCOL_VERSION,
};

verus! {

/// Answer where there is no traffic monitor.
pub const MONITOR_UNAVAILABLE: &'static str =
    "traffic monitor unavailable (curbd needs CAP_NET_RAW; run as root)";

/// Answer where there is no limiter.
pub const ENGINE_UNAVAILABLE: &'static str =
    "shaping engine unavailable (curbd needs CAP_NET_ADMIN and a default route)";

/// Answer where there are no quotas.
pub const QUOTA_UNAVAILABLE: &'static str =
    "quotas unavailable (need both the traffic monitor and shaping engine; run as root)";

/// The parts of the daemon that could be started.
#[derive(Debug, Clone, Copy)]
pub struct Services {
    pub monitor: bool,
    pub engine: bool,
    pub quota: bool,
}

/// The parts of the daemon, from whether the monitor and the limiter could be
/// started. Quotas need both: the one counts, the other enforces.
pub fn services(monitor: bool, engine: bool) -> (r: Services)
    ensures
        r.monitor == monitor,
        r.engine == engine,
        r.quota == (monitor && engine),
{
    Services { monitor, engine, quota: monitor && engine }
}

/// What is to be done for a request.
#[derive(Debug)]
pub enum Action {
    /// Answer without further ado.
    Answer(Response),
    /// Answer with the state of the daemon.
    Status,
    /// Answer with the latest snapshot of the monitor.
    Apps,
    /// Answer with the state of the limiter.
    Limiter,
    /// Set the caps of the host.
    SetHostLimit(HostLimit),
    /// Flip the master switch.
    SetEnabled(bool),
    /// Set the rule of an application.
    SetAppLimit { exe: String, down_bps: Option<u64>, up_bps: Option<u64>, scope: Scope },
    /// Remove the rule of an application.
    ClearAppLimit { exe: String },
    /// Answer with the rules of all applications.
    ListAppLimits,
    /// Set a quota.
    SetQuota { exe: String, budget_bytes: u64, period: QuotaPeriod, direction: Direction },
    /// Remove a quota.
    ClearQuota { exe: String },
    /// Answer with all quotas.
    ListQuotas,
    /// Answer with all connections.
    ListConnections,
}

/// Whether a request is turned down with the given message.
pub open spec fn refuses(a: Action, message: Seq<char>) -> bool {
    a is Answer && a->Answer_0 is Error && a->Answer_0->message@ == message
}

fn refuse(message: &str) -> (r: Action)
    ensures
        refuses(r, message@),
{
    Action::Answer(Response::Error { message: message.to_string() })
}

/// Decide what a request asks for. A request to a part of the daemon that is not
/// there is turned down with the reason; without the limiter there are no
/// connections to list.
pub fn dispatch(req: Request, s: &Services) -> (r: Action)
    ensures
        match req {
            Request::Ping => r is Answer && r->Answer_0 is Pong,
            Request::GetStatus => r is Status,
            Request::ListApps => if s.monitor {
                r is Apps
            } else {
                refuses(r, MONITOR_UNAVAILABLE@)
            },
            Request::GetLimiter => if s.engine {
                r is Limiter
            } else {
                refuses(r, ENGINE_UNAVAILABLE@)
            },
            Request::SetHostLimit {
                down_bps,
                up_bps,
                lan_down_bps,
                lan_up_bps,
                inet_down_bps,
                inet_up_bps,
            } => if s.engine {
                r == Action::SetHostLimit(
                    HostLimit {
                        down_bps,
                        up_bps,
                        lan: ScopedCap { down_bps: lan_down_bps, up_bps: lan_up_bps },
                        internet: ScopedCap { down_bps: inet_down_bps, up_bps: inet_up_bps },
                    },
                )
            } else {
                refuses(r, ENGINE_UNAVAILABLE@)
            },
            Request::SetLimiterEnabled(enabled) => if s.engine {
                r == Action::SetEnabled(enabled)
            } else {
                refuses(r, ENGINE_UNAVAILABLE@)
            },
            Request::SetAppLimit { exe, down_bps, up_bps, scope } => if s.engine {
                r == (Action::SetAppLimit { exe, down_bps, up_bps, scope })
            } else {
                refuses(r, ENGINE_UNAVAILABLE@)
            },
            Request::ClearAppLimit { exe } => if s.engine {
                r == (Action::ClearAppLimit { exe })
            } else {
                refuses(r, ENGINE_UNAVAILABLE@)
            },
            Request::ListAppLimits => if s.engine {
                r is ListAppLimits
            } else {
                refuses(r, ENGINE_UNAVAILABLE@)
            },
            Request::SetQuota { exe, budget_bytes, period, direction } => if s.quota {
                r == (Action::SetQuota { exe, budget_bytes, period, direction })
            } else {
                refuses(r, QUOTA_UNAVAILABLE@)
            },
            Request::ClearQuota { exe } => if s.quota {
                r == (Action::ClearQuota { exe })
            } else {
                refuses(r, QUOTA_UNAVAILABLE@)
            },
            Request::ListQuotas => if s.quota {
                r is ListQuotas
            } else {
                refuses(r, QUOTA_UNAVAILABLE@)
            },
            Request::ListConnections => if s.engine {
                r is ListConnections
            } else {
                r is Answer && r->Answer_0 is Connections && r->Answer_0->Connections_0@.len() == 0
            },
        },
{
    match req {
        Request::Ping => Action::Answer(Response::Pong),
        Request::GetStatus => Action::Status,
        Request::ListApps => if s.monitor {
            Action::Apps
        } else {
            refuse(MONITOR_UNAVAILABLE)
        },
        Request::GetLimiter => if s.engine {
            Action::Limiter
        } else {
            refuse(ENGINE_UNAVAILABLE)
        },
        Request::SetHostLimit {
            down_bps,
            up_bps,
            lan_down_bps,
            lan_up_bps,
            inet_down_bps,
            inet_up_bps,
        } => if s.engine {
            Action::SetHostLimit(
                HostLimit {
                    down_bps,
                    up_bps,
                    lan: ScopedCap { down_bps: lan_down_bps, up_bps: lan_up_bps },
                    internet: ScopedCap { down_bps: inet_down_bps, up_bps: inet_up_bps },
                },
            )
        } else {
            refuse(ENGINE_UNAVAILABLE)
        },
        Request::SetLimiterEnabled(enabled) => if s.engine {
            Action::SetEnabled(enabled)
        } else {
            refuse(ENGINE_UNAVAILABLE)
        },
        Request::SetAppLimit { exe, down_bps, up_bps, scope } => if s.engine {
            Action::SetAppLimit { exe, down_bps, up_bps, scope }
        } else {
            refuse(ENGINE_UNAVAILABLE)
        },
        Request::ClearAppLimit { exe } => if s.engine {
            Action::ClearAppLimit { exe }
        } else {
            refuse(ENGINE_UNAVAILABLE)
        },
        Request::ListAppLimits => if s.engine {
            Action::ListAppLimits
        } else {
            refuse(ENGINE_UNAVAILABLE)
        },
        Request::SetQuota { exe, budget_bytes, period, direction } => if s.quota {
            Action::SetQuota { exe, budget_bytes, period, direction }
        } else {
            refuse(QUOTA_UNAVAILABLE)
        },
        Request::ClearQuota { exe } => if s.quota {
            Action::ClearQuota { exe }
        } else {
            refuse(QUOTA_UNAVAILABLE)
        },
        Request::ListQuotas => if s.quota {
            Action::ListQuotas
        } else {
            refuse(QUOTA_UNAVAILABLE)
        },
        Request::ListConnections => if s.engine {
            Action::ListConnections
        } else {
            Action::Answer(Response::Connections(Vec::new()))
        },
    }
}

/// Report the state of the daemon, given that of the limiter, if there is one.
pub fn status(version: &str, pid: u32, uptime_secs: u64, limiter: Option<bool>) -> (r: DaemonStatus)
    ensures
        r.protocol_version == PROTOCOL_VERSION,
        r.daemon_version@ == version@,
        r.pid == pid,
        r.uptime_secs == uptime_secs,
        r.limiter_enabled == (limiter == Some(true)),
{
    let limiter_enabled: bool = match limiter {
        Some(on) => on,
        None => false,
    };
    DaemonStatus {
        protocol_version: PROTOCOL_VERSION,
        daemon_version: version.to_string(),
        pid,
        uptime_secs,
        limiter_enabled,
    }
}

/// Answer a change of the limiter with its new state, or with why it failed.
pub fn limiter_reply(outcome: Result<LimiterState, String>) -> (r: Response)
    ensures
        match outcome {
            Ok(state) => r == Response::Limiter(state),
            Err(message) => r == (Response::Error { message }),
        },
{
    match outcome {
        Ok(state) => Response::Limiter(state),
        Err(message) => Response::Error { message },
    }
}

/// Answer a change of a rule with the rules, or with why it failed.
pub fn app_limits_reply(outcome: Result<Vec<AppLimit>, String>) -> (r: Response)
    ensures
        match outcome {
            Ok(limits) => r == Response::AppLimits(limits),
            Err(message) => r == (Response::Error { message }),
        },
{
    match outcome {
        Ok(limits) => Response::AppLimits(limits),
        Err(message) => Response::Error { message },
    }
}

// ---- Laws --------------------------------------------------------------------

/// A request is turned down by one answer, which says why.
pub proof fn law_refusal_says_why(a: Action, message: Seq<char>)
    requires
        refuses(a, message),
    ensures
        a is Answer,
        a->Answer_0 is Error,
        a->Answer_0->message@ == message,
{
}

} // verus!
