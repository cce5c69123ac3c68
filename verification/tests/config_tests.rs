use overwatchd::config::{default_config, parse_uci};
use overwatchd::ip::parse_ip;

const SAMPLE: &str = "
config overwatch 'global'
    option enabled '1'
    option sample_interval '5'
    option retention_hours_min '24'
    option retention_days_hour '20'
    option retention_days_day '200'
    list lan_prefix '192.168.1.0/24'
    list lan_prefix '10.0.0.0/8'
";

#[test]
fn parses_global_section() {
    let c = parse_uci(SAMPLE);
    assert!(c.enabled);
    assert_eq!(c.sample_interval, 5);
    assert_eq!(c.lan_prefixes.len(), 2);
    assert_eq!(c.retention.min_secs, 24 * 3600);
    assert_eq!(c.retention.hour_secs, 20 * 86400);
    assert_eq!(c.retention.day_secs, 200 * 86400);
}

#[test]
fn empty_text_yields_defaults() {
    let c = parse_uci("");
    let d = default_config();
    assert_eq!(c.enabled, d.enabled);
    assert_eq!(c.sample_interval, d.sample_interval);
    assert_eq!(c.lan_prefixes.len(), 1);
}

#[test]
fn disabled_flag_applies() {
    let txt = "
config overwatch 'global'
    option enabled '0'
";
    let c = parse_uci(txt);
    assert!(!c.enabled);
}

#[test]
fn negative_retention_falls_back_to_default() {
    let txt = "
config overwatch 'global'
    option retention_hours_min '-5'
";
    let c = parse_uci(txt);
    assert_eq!(c.retention.min_secs, default_config().retention.min_secs);
}

#[test]
fn new_options_have_persistent_defaults() {
    let d = default_config();
    assert_eq!(d.db_path, "/etc/overwatch/overwatch.db");
}

#[test]
fn parses_new_options_from_uci() {
    let txt = "
config overwatch 'global'
    option db_path '/etc/overwatch/custom.db'
";
    let c = parse_uci(txt);
    assert_eq!(c.db_path, "/etc/overwatch/custom.db");
}

#[test]
fn dns_options_have_documented_defaults() {
    let d = default_config();
    assert!(!d.dns_stats_enabled);
    assert_eq!(d.dns_iface, "br-lan");
    assert_eq!(d.dns_flush_secs, 60);
    assert_eq!(d.dns_top_n, 50);
}

#[test]
fn parses_dns_options_from_uci() {
    let txt = "
config overwatch 'global'
    option dns_stats_enabled '1'
    option dns_iface 'eth0'
    option dns_flush_secs '30'
    option dns_top_n '100'
";
    let c = parse_uci(txt);
    assert!(c.dns_stats_enabled);
    assert_eq!(c.dns_iface, "eth0");
    assert_eq!(c.dns_flush_secs, 30);
    assert_eq!(c.dns_top_n, 100);
}

#[test]
fn only_first_overwatch_section_counts_and_bad_values_keep_defaults() {
    let txt = "
config other 'x'
    option sample_interval '9'
config overwatch 'global'
    option sample_interval 'abc'
    option dns_top_n \"7\"
    list lan_prefix 'bogus'
    list lan_prefix ' fd00::/8 '
config overwatch 'second'
    option enabled '0'
";
    let c = parse_uci(txt);
    assert!(c.enabled);
    assert_eq!(c.sample_interval, 2);
    assert_eq!(c.dns_top_n, 7);
    assert_eq!(c.lan_prefixes.len(), 1);
    assert_eq!(c.lan_prefixes[0].addr, parse_ip("fd00::").unwrap());
    assert_eq!(c.lan_prefixes[0].prefix_len, 8);
}

#[test]
fn options_before_any_section_are_ignored() {
    let txt = "option enabled '0'\nconfig overwatch\n";
    let c = parse_uci(txt);
    assert!(c.enabled);
    assert_eq!(c.retention, default_config().retention);
}

#[test]
fn retention_range_check_matches_overflow() {
    let ok = "config overwatch\n    option retention_hours_min '24'\n";
    assert!(overwatchd::config::uci_retention_fits(ok));
    let huge = "config overwatch\n    option retention_days_day '9223372036854775807'\n";
    assert!(!overwatchd::config::uci_retention_fits(huge));
    // ignored values never overflow
    let negative = "config overwatch\n    option retention_days_day '-9223372036854775808'\n";
    assert!(overwatchd::config::uci_retention_fits(negative));
    assert!(overwatchd::config::uci_retention_fits(""));
}
