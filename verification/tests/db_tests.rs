use overwatchd::db::{default_retention, prune_cutoffs, StoreError, Tier};

#[test]
fn tier_tables_and_error_text() {
    assert_eq!(Tier::Min.table(), "samples_min");
    assert_eq!(Tier::Hour.table(), "samples_hour");
    assert_eq!(Tier::Day.table(), "samples_day");
    assert_eq!(StoreError("disk full".to_string()).to_string(), "store error: disk full");
}

#[test]
fn default_retention_and_cutoffs() {
    let r = default_retention();
    assert_eq!(r.min_secs, 48 * 3600);
    assert_eq!(r.hour_secs, 35 * 86400);
    assert_eq!(r.day_secs, 395 * 86400);
    assert_eq!(r.dns_days, 395 * 86400);
    let (m, h, d, n) = prune_cutoffs(2_000_000, &r);
    assert_eq!(m, 2_000_000 - 172_800);
    assert_eq!(h, 2_000_000 - 3_024_000);
    assert_eq!(d, 2_000_000 - 34_128_000);
    assert_eq!(n, 2_000_000 - 34_128_000);
}
