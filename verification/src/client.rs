//! What the clients of the daemon ask and how they read its answers.

use vstd::prelude::*;

use crate::proto::{
    AppLimit, DaemonStatus, Direction, LimiterState, MonitorSnapshot, QuotaPeriod, QuotaStatus,
    Request, Response, Scope,
};
use crate::rate::{parse_rate, rate_of, RateError};
use crate::text::same;

verus! {

/// The scope that a word names; all traffic where it names none.
pub open spec fn scope_named(s: Seq<char>) -> Scope {
    if s == "lan"@ {
        Scope::Lan
    } else if s == "internet"@ {
        Scope::Internet
    } else {
        Scope::Both
    }
}

/// Read a scope.
pub fn parse_scope(s: &str) -> (r: Scope)
    ensures
        r == scope_named(s@),
{
    if same(s, "lan") {
        Scope::Lan
    } else if same(s, "internet") {
        Scope::Internet
    } else {
        Scope::Both
    }
}

/// The direction that a word names; both where it names none.
pub open spec fn direction_named(s: Seq<char>) -> Direction {
    if s == "down"@ {
        Direction::Down
    } else if s == "up"@ {
        Direction::Up
    } else {
        Direction::Both
    }
}

/// Read a direction.
pub fn parse_direction(s: &str) -> (r: Direction)
    ensures
        r == direction_named(s@),
{
    if same(s, "down") {
        Direction::Down
    } else if same(s, "up") {
        Direction::Up
    } else {
        Direction::Both
    }
}

/// The period that a word names; a day where it names none.
pub open spec fn period_named(s: Seq<char>) -> QuotaPeriod {
    if s == "hourly"@ {
        QuotaPeriod::Hourly
    } else if s == "weekly"@ {
        QuotaPeriod::Weekly
    } else if s == "monthly"@ {
        QuotaPeriod::Monthly
    } else if s == "total"@ {
        QuotaPeriod::Total
    } else {
        QuotaPeriod::Daily
    }
}

/// Read a period.
pub fn parse_period(s: &str) -> (r: QuotaPeriod)
    ensures
        r == period_named(s@),
{
    if same(s, "hourly") {
        QuotaPeriod::Hourly
    } else if same(s, "weekly") {
        QuotaPeriod::Weekly
    } else if same(s, "monthly") {
        QuotaPeriod::Monthly
    } else if same(s, "total") {
        QuotaPeriod::Total
    } else {
        QuotaPeriod::Daily
    }
}

/// Why caps of the host cannot be asked for.
#[derive(Debug, Clone, Copy, PartialEq, Eq, Structural)]
pub enum HostError {
    /// The download cap is no rate.
    Down(RateError),
    /// The upload cap is no rate.
    Up(RateError),
    /// Neither cap was given.
    Missing,
}

/// A rate that may be left out.
pub open spec fn optional_rate(s: Option<&str>) -> Result<Option<u64>, RateError> {
    match s {
        Some(t) => match rate_of(t@) {
            Ok(bps) => Ok(Some(bps)),
            Err(e) => Err(e),
        },
        None => Ok(None),
    }
}

fn parse_optional(s: Option<&str>) -> (r: Result<Option<u64>, RateError>)
    ensures
        r == optional_rate(s),
{
    match s {
        Some(t) => match parse_rate(t) {
            Ok(bps) => Ok(Some(bps)),
            Err(e) => Err(e),
        },
        None => Ok(None),
    }
}

/// Ask for caps of the host. A direction that is left out is unlimited, and so are
/// the zones; one of the two must be given.
pub fn host_request(down: Option<&str>, up: Option<&str>) -> (r: Result<Request, HostError>)
    ensures
        match (optional_rate(down), optional_rate(up)) {
            (Err(e), _) => r == Err::<Request, HostError>(HostError::Down(e)),
            (_, Err(e)) => r == Err::<Request, HostError>(HostError::Up(e)),
            (Ok(None), Ok(None)) => r == Err::<Request, HostError>(HostError::Missing),
            (Ok(d), Ok(u)) => r == Ok::<Request, HostError>(
                Request::SetHostLimit {
                    down_bps: d,
                    up_bps: u,
                    lan_down_bps: None,
                    lan_up_bps: None,
                    inet_down_bps: None,
                    inet_up_bps: None,
                },
            ),
        },
{
    let down_bps: Option<u64> = match parse_optional(down) {
        Ok(d) => d,
        Err(e) => {
            return Err(HostError::Down(e));
        },
    };
    let up_bps: Option<u64> = match parse_optional(up) {
        Ok(u) => u,
        Err(e) => {
            return Err(HostError::Up(e));
        },
    };
    if down_bps.is_none() && up_bps.is_none() {
        return Err(HostError::Missing);
    }
    Ok(
        Request::SetHostLimit {
            down_bps,
            up_bps,
            lan_down_bps: None,
            lan_up_bps: None,
            inet_down_bps: None,
            inet_up_bps: None,
        },
    )
}

/// How a client reads an answer.
#[derive(Debug)]
pub enum Reply<T> {
    /// What was asked for.
    Value(T),
    /// The daemon could not serve the request, and says why.
    Refused(String),
    /// An answer to another question.
    Unexpected(Response),
}

/// Read the answer to a ping.
pub fn expect_pong(resp: Response) -> (r: Reply<()>)
    ensures
        match resp {
            Response::Pong => r == Reply::Value(()),
            other => r == Reply::<()>::Unexpected(other),
        },
{
    match resp {
        Response::Pong => Reply::Value(()),
        other => Reply::Unexpected(other),
    }
}

/// Read the answer to a request for the state of the daemon.
pub fn expect_status(resp: Response) -> (r: Reply<DaemonStatus>)
    ensures
        match resp {
            Response::Status(s) => r == Reply::Value(s),
            Response::Error { message } => r == Reply::<DaemonStatus>::Refused(message),
            other => r == Reply::<DaemonStatus>::Unexpected(other),
        },
{
    match resp {
        Response::Status(s) => Reply::Value(s),
        Response::Error { message } => Reply::Refused(message),
        other => Reply::Unexpected(other),
    }
}

/// Read the answer to a request for live traffic.
pub fn expect_apps(resp: Response) -> (r: Reply<MonitorSnapshot>)
    ensures
        match resp {
            Response::Apps(s) => r == Reply::Value(s),
            Response::Error { message } => r == Reply::<MonitorSnapshot>::Refused(message),
            other => r == Reply::<MonitorSnapshot>::Unexpected(other),
        },
{
    match resp {
        Response::Apps(s) => Reply::Value(s),
        Response::Error { message } => Reply::Refused(message),
        other => Reply::Unexpected(other),
    }
}

/// Read the answer to a request on the limiter.
pub fn expect_limiter(resp: Response) -> (r: Reply<LimiterState>)
    ensures
        match resp {
            Response::Limiter(s) => r == Reply::Value(s),
            Response::Error { message } => r == Reply::<LimiterState>::Refused(message),
            other => r == Reply::<LimiterState>::Unexpected(other),
        },
{
    match resp {
        Response::Limiter(s) => Reply::Value(s),
        Response::Error { message } => Reply::Refused(message),
        other => Reply::Unexpected(other),
    }
}

/// Read the answer to a request on the rules of applications.
pub fn expect_app_limits(resp: Response) -> (r: Reply<Vec<AppLimit>>)
    ensures
        match resp {
            Response::AppLimits(v) => r == Reply::Value(v),
            Response::Error { message } => r == Reply::<Vec<AppLimit>>::Refused(message),
            other => r == Reply::<Vec<AppLimit>>::Unexpected(other),
        },
{
    match resp {
        Response::AppLimits(v) => Reply::Value(v),
        Response::Error { message } => Reply::Refused(message),
        other => Reply::Unexpected(other),
    }
}

/// Read the answer to a request on quotas.
pub fn expect_quotas(resp: Response) -> (r: Reply<Vec<QuotaStatus>>)
    ensures
        match resp {
            Response::Quotas(v) => r == Reply::Value(v),
            Response::Error { message } => r == Reply::<Vec<QuotaStatus>>::Refused(message),
            other => r == Reply::<Vec<QuotaStatus>>::Unexpected(other),
        },
{
    match resp {
        Response::Quotas(v) => Reply::Value(v),
        Response::Error { message } => Reply::Refused(message),
        other => Reply::Unexpected(other),
    }
}

// ---- Laws --------------------------------------------------------------------

/// Scopes, directions and periods each have their word, and every other word stands for
/// the widest scope, for both directions and for a day.
pub proof fn law_words_of_the_client(s: Seq<char>)
    ensures
        scope_named(s) == Scope::Lan <==> s == "lan"@,
        scope_named(s) == Scope::Internet <==> s == "internet"@,
        direction_named(s) == Direction::Down <==> s == "down"@,
        direction_named(s) == Direction::Up <==> s == "up"@,
        period_named(s) == QuotaPeriod::Hourly <==> s == "hourly"@,
        period_named(s) == QuotaPeriod::Weekly <==> s == "weekly"@,
        period_named(s) == QuotaPeriod::Monthly <==> s == "monthly"@,
        period_named(s) == QuotaPeriod::Total <==> s == "total"@,
{
    reveal_strlit("lan");
    reveal_strlit("internet");
    reveal_strlit("down");
    reveal_strlit("up");
    reveal_strlit("hourly");
    reveal_strlit("weekly");
    reveal_strlit("monthly");
    reveal_strlit("total");
    assert("lan"@.len() == 3 && "internet"@.len() == 8);
    assert("down"@.len() == 4 && "up"@.len() == 2);
    assert("hourly"@.len() == 6 && "weekly"@.len() == 6);
    assert("monthly"@.len() == 7 && "total"@.len() == 5);
    assert("hourly"@[0] == 'h' && "weekly"@[0] == 'w');
}

/// A rate that is given is read as a rate, and one that is left out is no cap.
pub proof fn law_optional_rates(s: Option<&str>)
    ensures
        s is None ==> optional_rate(s) == Ok::<Option<u64>, RateError>(None),
        s is Some && rate_of(s->0@) is Ok ==> optional_rate(s) == Ok::<Option<u64>, RateError>(
            Some(rate_of(s->0@)->Ok_0),
        ),
        s is Some && rate_of(s->0@) is Err ==> optional_rate(s) == Err::<Option<u64>, RateError>(
            rate_of(s->0@)->Err_0,
        ),
{
}

} // verus!
