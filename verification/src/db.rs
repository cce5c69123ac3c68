use vstd::prelude::*;
use crate::sample::Sample;

verus! {

/// A resolution of stored history.
#[derive(Debug, Clone, Copy, PartialEq, Eq, Structural)]
pub enum Tier {
    Min,
    Hour,
    Day,
}

/// The table that holds a tier's samples.
pub open spec fn tier_table(t: Tier) -> Seq<char> {
    match t {
        Tier::Min => "samples_min"@,
        Tier::Hour => "samples_hour"@,
        Tier::Day => "samples_day"@,
    }
}

impl Tier {
    pub fn table(&self) -> (r: &'static str)
        ensures
            r@ == tier_table(*self),
    {
        match self {
            Tier::Min => "samples_min",
            Tier::Hour => "samples_hour",
            Tier::Day => "samples_day",
        }
    }
}

/// A storage failure, with its message.
#[derive(Debug)]
pub struct StoreError(pub String);

impl StoreError {
    /// The message as shown to users: `store error: ` and the cause.
    pub fn to_string(&self) -> (r: String)
        ensures
            r@ == "store error: "@ + self.0@,
    {
        let mut s = "store error: ".to_owned();
        crate::text::push_str(&mut s, self.0.as_str());
        s
    }
}

/// Persistent storage of clients, samples and DNS counts.
pub trait Store {
    fn upsert_client(&self, mac: &str, host: &str, ip: &str, now: i64) -> Result<(), StoreError>;

    fn insert_samples(&self, tier: Tier, mac: &str, samples: &[Sample]) -> Result<(), StoreError>;

    fn query(&self, tier: Tier, mac: Option<&str>, from: i64, to: i64) -> Result<Vec<Sample>, StoreError>;

    fn add_dns_counts(&self, ts_day: i64, counts: &[(String, String, u64)]) -> Result<(), StoreError>;

    fn dns_top(&self, client: Option<&str>, from: i64, to: i64, limit: u64) -> Result<Vec<(String, u64)>, StoreError>;
}

/// How long each tier keeps its rows, in seconds.
#[derive(Debug, Clone, Copy, PartialEq, Eq, Structural)]
pub struct Retention {
    pub min_secs: i64,
    pub hour_secs: i64,
    pub day_secs: i64,
    pub dns_days: i64,
}

/// 48 hours of minutes, 35 days of hours, 395 days of days and of DNS counts.
pub fn default_retention() -> (r: Retention)
    ensures
        r.min_secs == 48 * 3600,
        r.hour_secs == 35 * 86400,
        r.day_secs == 395 * 86400,
        r.dns_days == 395 * 86400,
{
    Retention { min_secs: 48 * 3600, hour_secs: 35 * 86400, day_secs: 395 * 86400, dns_days: 395 * 86400 }
}

/// The oldest timestamps each table keeps at `now`: minutes, hours, days,
/// DNS counts; rows older than these are pruned.
pub fn prune_cutoffs(now: i64, r: &Retention) -> (c: (i64, i64, i64, i64))
    requires
        i64::MIN <= now - r.min_secs <= i64::MAX,
        i64::MIN <= now - r.hour_secs <= i64::MAX,
        i64::MIN <= now - r.day_secs <= i64::MAX,
        i64::MIN <= now - r.dns_days <= i64::MAX,
    ensures
        c == ((now - r.min_secs) as i64, (now - r.hour_secs) as i64, (now - r.day_secs) as i64, (now - r.dns_days) as i64),
{
    (now - r.min_secs, now - r.hour_secs, now - r.day_secs, now - r.dns_days)
}

} // verus!
