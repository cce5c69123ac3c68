use vstd::prelude::*;
use crate::history::HistTier;
use crate::text::str_eq;

verus! {

/// The tier that a request names.
pub open spec fn tier_named(s: Seq<char>) -> Option<HistTier> {
    if s == "realtime"@ {
        Some(HistTier::Realtime)
    } else if s == "day"@ {
        Some(HistTier::Day)
    } else if s == "week"@ {
        Some(HistTier::Week)
    } else if s == "month"@ {
        Some(HistTier::Month)
    } else {
        None
    }
}

/// The tier named `realtime`, `day`, `week` or `month`.
pub fn hist_tier(s: &str) -> (r: Option<HistTier>)
    ensures
        r == tier_named(s@),
{
    if str_eq(s, "realtime") {
        Some(HistTier::Realtime)
    } else if str_eq(s, "day") {
        Some(HistTier::Day)
    } else if str_eq(s, "week") {
        Some(HistTier::Week)
    } else if str_eq(s, "month") {
        Some(HistTier::Month)
    } else {
        None
    }
}

/// The parameters of a control request that the methods read; a parameter
/// that is absent or of another JSON type is `None`.
#[derive(Debug, Clone)]
pub struct Params {
    pub top_n: Option<u64>,
    pub tier: Option<String>,
    pub client: Option<String>,
    pub from: Option<i64>,
    pub to: Option<i64>,
    pub max_points: Option<u64>,
    pub limit: Option<u64>,
}

/// A control request with its defaults applied and its limits enforced.
#[derive(Debug, Clone)]
pub enum Request {
    Clients,
    Status,
    Summary { top_n: usize },
    History { tier: HistTier, client: Option<String>, from: i64, to: i64, max_points: usize },
    DnsTop { client: Option<String>, from: i64, to: i64, limit: u64 },
}

pub open spec fn opt_text(s: Option<String>) -> Option<Seq<char>> {
    match s {
        Some(v) => Some(v@),
        None => None,
    }
}

pub open spec fn or_u64(v: Option<u64>, d: u64) -> u64 {
    match v {
        Some(x) => x,
        None => d,
    }
}

pub open spec fn or_i64(v: Option<i64>, d: i64) -> i64 {
    match v {
        Some(x) => x,
        None => d,
    }
}

pub open spec fn at_most(v: u64, cap: u64) -> u64 {
    if v <= cap { v } else { cap }
}

/// Whether `r` is the request that `method` with `params` asks for: `summary`
/// lists the top 5 talkers unless told otherwise, at most 10 000; `history`
/// needs a valid tier and covers all time in at most 500 points unless told
/// otherwise, at most 100 000; `dns_top` covers all time and lists the
/// configured number of domains unless told otherwise, at most 10 000.
pub open spec fn planned(method: Seq<char>, params: Params, dns_top_n: u64, r: Result<Request, String>) -> bool {
    if method == "clients"@ {
        r matches Ok(Request::Clients)
    } else if method == "status"@ {
        r matches Ok(Request::Status)
    } else if method == "summary"@ {
        r matches Ok(Request::Summary { top_n }) && top_n == at_most(or_u64(params.top_n, 5), 10_000)
    } else if method == "history"@ {
        match params.tier {
            Some(t) if tier_named(t@) is Some => {
                &&& r matches Ok(Request::History { tier, client, from, to, max_points })
                &&& tier == tier_named(t@)->0
                &&& opt_text(client) == opt_text(params.client)
                &&& from == or_i64(params.from, 0)
                &&& to == or_i64(params.to, i64::MAX)
                &&& max_points == at_most(or_u64(params.max_points, 500), 100_000)
            },
            _ => r matches Err(e) && e@ == "missing or invalid tier"@,
        }
    } else if method == "dns_top"@ {
        &&& r matches Ok(Request::DnsTop { client, from, to, limit })
        &&& opt_text(client) == opt_text(params.client)
        &&& from == or_i64(params.from, 0)
        &&& to == or_i64(params.to, i64::MAX)
        &&& limit == at_most(or_u64(params.limit, dns_top_n), 10_000)
    } else {
        r matches Err(e) && e@ == "unknown method"@
    }
}

fn copy_text(s: &Option<String>) -> (r: Option<String>)
    ensures
        opt_text(r) == opt_text(*s),
{
    match s {
        Some(v) => Some(v.clone()),
        None => None,
    }
}

/// Decides what a control request asks for, or the error that answers it.
pub fn plan_request(method: &str, params: &Params, dns_top_n: u64) -> (r: Result<Request, String>)
    ensures
        planned(method@, *params, dns_top_n, r),
{
    if str_eq(method, "clients") {
        Ok(Request::Clients)
    } else if str_eq(method, "status") {
        Ok(Request::Status)
    } else if str_eq(method, "summary") {
        let n = match params.top_n {
            Some(x) => x,
            None => 5,
        };
        let top_n: u64 = if n <= 10_000 { n } else { 10_000 };
        Ok(Request::Summary { top_n: top_n as usize })
    } else if str_eq(method, "history") {
        let tier = match &params.tier {
            Some(t) => hist_tier(t.as_str()),
            None => None,
        };
        match tier {
            Some(tier) => {
                let mp = match params.max_points {
                    Some(x) => x,
                    None => 500,
                };
                let max_points: u64 = if mp <= 100_000 { mp } else { 100_000 };
                Ok(Request::History {
                    tier,
                    client: copy_text(&params.client),
                    from: match params.from {
                        Some(x) => x,
                        None => 0,
                    },
                    to: match params.to {
                        Some(x) => x,
                        None => i64::MAX,
                    },
                    max_points: max_points as usize,
                })
            },
            None => Err("missing or invalid tier".to_owned()),
        }
    } else if str_eq(method, "dns_top") {
        let l = match params.limit {
            Some(x) => x,
            None => dns_top_n,
        };
        Ok(Request::DnsTop {
            client: copy_text(&params.client),
            from: match params.from {
                Some(x) => x,
                None => 0,
            },
            to: match params.to {
                Some(x) => x,
                None => i64::MAX,
            },
            limit: if l <= 10_000 { l } else { 10_000 },
        })
    } else {
        Err("unknown method".to_owned())
    }
}

/// Whether database maintenance is due: five minutes after the last run.
pub fn maintenance_due(now: i64, last_maint: i64) -> (r: bool)
    ensures
        r == (now - last_maint >= 300),
{
    (now as i128) - (last_maint as i128) >= 300
}

} // verus!
