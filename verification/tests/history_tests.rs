use std::cell::RefCell;

use overwatchd::db::{Store, StoreError, Tier};
use overwatchd::history::{finish_series, series_source, HistTier, HistoryService, StoreQuery};
use overwatchd::recorder::Recorder;
use overwatchd::sample::Sample;
use overwatchd::snapshot::ClientView;

/// A store that keeps sample rows in memory, for exercising the service.
struct MemStore {
    rows: RefCell<Vec<(Tier, String, Sample)>>,
    fail: bool,
}

impl MemStore {
    fn new() -> Self {
        MemStore { rows: RefCell::new(Vec::new()), fail: false }
    }
}

impl Store for MemStore {
    fn upsert_client(&self, _mac: &str, _host: &str, _ip: &str, _now: i64) -> Result<(), StoreError> {
        Ok(())
    }

    fn insert_samples(&self, tier: Tier, mac: &str, samples: &[Sample]) -> Result<(), StoreError> {
        for s in samples {
            self.rows.borrow_mut().push((tier, mac.to_string(), *s));
        }
        Ok(())
    }

    fn query(&self, tier: Tier, mac: Option<&str>, from: i64, to: i64) -> Result<Vec<Sample>, StoreError> {
        if self.fail {
            return Err(StoreError("down".to_string()));
        }
        let mut out: Vec<Sample> = self
            .rows
            .borrow()
            .iter()
            .filter(|(t, m, s)| *t == tier && mac.map_or(true, |x| x == m) && s.ts >= from && s.ts <= to)
            .map(|(_, _, s)| *s)
            .collect();
        out.sort_by_key(|s| s.ts);
        Ok(out)
    }

    fn add_dns_counts(&self, _ts_day: i64, _counts: &[(String, String, u64)]) -> Result<(), StoreError> {
        Ok(())
    }

    fn dns_top(&self, _client: Option<&str>, _from: i64, _to: i64, _limit: u64) -> Result<Vec<(String, u64)>, StoreError> {
        Ok(Vec::new())
    }
}

fn view(mac: &str, rx: u64) -> ClientView {
    ClientView {
        mac: mac.to_string(),
        ip: String::new(),
        host: String::new(),
        rx_bps: rx,
        tx_bps: 0,
        rx_total: 0,
        tx_total: 0,
        conns_tcp: 0,
        conns_udp: 0,
    }
}

#[test]
fn week_tier_reads_hour_table_downsampled() {
    let store = MemStore::new();
    let samples: Vec<Sample> = (0..200)
        .map(|i| Sample { ts: i * 3600, rx_bytes: i as u64, tx_bytes: 0, rx_peak: 0, tx_peak: 0, conns: 0 })
        .collect();
    store.insert_samples(Tier::Hour, "aa", &samples).unwrap();
    let recorder = Recorder::new(300, 1440);
    let svc = HistoryService::new(&recorder, &store);
    let out = svc.series(HistTier::Week, Some("aa"), 0, 1_000_000, 50);
    assert_eq!(out.len(), 50);
    assert_eq!(out[0].ts, 0);
    assert_eq!(out[49].ts, 199 * 3600);
}

#[test]
fn realtime_tier_reads_ram_ring() {
    let store = MemStore::new();
    let mut recorder = Recorder::new(300, 1440);
    recorder.record(&[view("aa", 1000)], 100);
    recorder.record(&[view("aa", 1000)], 102);
    let svc = HistoryService::new(&recorder, &store);
    let out = svc.series(HistTier::Realtime, Some("aa"), 0, 1000, 500);
    assert_eq!(out.len(), 2);
}

#[test]
fn total_series_merges_clients_per_timestamp() {
    let store = MemStore::new();
    let mut recorder = Recorder::new(300, 1440);
    recorder.record(&[view("aa", 1000), view("bb", 10)], 100);
    recorder.record(&[view("aa", 1000), view("bb", 10)], 102);
    recorder.record(&[view("bb", 30)], 104);
    let svc = HistoryService::new(&recorder, &store);
    let out = svc.ram_series(None, 0, 1000, true);
    assert_eq!(out.iter().map(|s| s.ts).collect::<Vec<_>>(), vec![100, 102, 104]);
    assert_eq!(out[0].rx_peak, 1000);
    assert_eq!(out[1].rx_bytes, 2020);
    assert_eq!(out[2].rx_bytes, 60);
    // the window is inclusive at both ends
    let w = svc.ram_series(Some("aa"), 102, 102, true);
    assert_eq!(w.len(), 1);
    assert_eq!(w[0].ts, 102);
}

#[test]
fn failed_store_gives_empty_series() {
    let mut store = MemStore::new();
    store.fail = true;
    let recorder = Recorder::new(10, 10);
    let svc = HistoryService::new(&recorder, &store);
    assert!(svc.series(HistTier::Month, None, 0, i64::MAX, 10).is_empty());
    assert!(svc.series(HistTier::Day, Some("zz"), 0, i64::MAX, 10).is_empty());
}

#[test]
fn stored_tiers_ask_the_right_table_and_failures_are_empty() {
    assert_eq!(
        series_source(HistTier::Week, Some("aa"), 5, 9),
        Some(StoreQuery { tier: Tier::Hour, mac: Some("aa"), from: 5, to: 9 })
    );
    assert_eq!(
        series_source(HistTier::Month, None, -1, 7),
        Some(StoreQuery { tier: Tier::Day, mac: None, from: -1, to: 7 })
    );
    assert_eq!(series_source(HistTier::Realtime, None, 0, 1), None);
    assert_eq!(series_source(HistTier::Day, Some("x"), 0, 1), None);
    assert!(finish_series(Err(StoreError("down".to_string())), 10).is_empty());
    let pts: Vec<Sample> = (0..4)
        .map(|i| Sample { ts: i, rx_bytes: 0, tx_bytes: 0, rx_peak: 0, tx_peak: 0, conns: 0 })
        .collect();
    assert_eq!(finish_series(Ok(pts.clone()), 10), pts);
    assert_eq!(finish_series(Ok(pts.clone()), 3).len(), 3);
}

#[test]
fn week_and_month_read_only_their_own_table_for_the_client() {
    let store = MemStore::new();
    let s = |ts: i64, v: u64| Sample { ts, rx_bytes: v, tx_bytes: 0, rx_peak: 0, tx_peak: 0, conns: 0 };
    store.insert_samples(Tier::Hour, "aa", &[s(10, 1), s(20, 2), s(30, 3)]).unwrap();
    store.insert_samples(Tier::Hour, "bb", &[s(20, 9)]).unwrap();
    store.insert_samples(Tier::Day, "aa", &[s(0, 7)]).unwrap();
    let recorder = Recorder::new(10, 10);
    let svc = HistoryService::new(&recorder, &store);
    let week = svc.series(HistTier::Week, Some("aa"), 15, 30, 100);
    assert_eq!(week.iter().map(|x| x.ts).collect::<Vec<_>>(), vec![20, 30]);
    let month = svc.series(HistTier::Month, Some("aa"), 0, 100, 100);
    assert_eq!(month, vec![s(0, 7)]);
}
