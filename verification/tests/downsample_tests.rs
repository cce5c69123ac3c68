use overwatchd::downsample::lttb;
use overwatchd::sample::Sample;

fn s(ts: i64, v: u64) -> Sample {
    Sample { ts, rx_bytes: v, tx_bytes: 0, rx_peak: v, tx_peak: 0, conns: 0 }
}

#[test]
fn returns_input_when_threshold_not_smaller() {
    let data: Vec<Sample> = (0..5).map(|i| s(i, i as u64)).collect();
    assert_eq!(lttb(&data, 10).len(), 5);
    assert_eq!(lttb(&data, 5).len(), 5);
    assert_eq!(lttb(&data, 2).len(), 5);
}

#[test]
fn downsamples_to_threshold_keeping_endpoints() {
    let data: Vec<Sample> = (0..100).map(|i| s(i, (i % 7) as u64)).collect();
    let out = lttb(&data, 10);
    assert_eq!(out.len(), 10);
    assert_eq!(out[0], data[0]);
    assert_eq!(out[9], data[99]);
    for w in out.windows(2) {
        assert!(w[0].ts < w[1].ts);
    }
}

#[test]
fn preserves_a_spike() {
    let mut data: Vec<Sample> = (0..50).map(|i| s(i, 1)).collect();
    data[25] = s(25, 1000);
    let out = lttb(&data, 6);
    assert!(out.iter().any(|p| p.rx_bytes == 1000), "spike should survive downsampling");
}

#[test]
fn lttb_identity_below_threshold_returns_same_points() {
    let data: Vec<Sample> = (0..7).map(|i| s(i * 10, (i * 3) as u64)).collect();
    assert_eq!(lttb(&data, 100), data);
    assert_eq!(lttb(&data, 0), data);
}

#[test]
fn lttb_three_points_picks_middle_extreme() {
    // threshold 3 over 5 points: first, the point of the middle bucket with the largest triangle, last
    let data = vec![s(0, 0), s(1, 0), s(2, 50), s(3, 0), s(4, 0)];
    let out = lttb(&data, 3);
    assert_eq!(out.len(), 3);
    assert_eq!(out[0], data[0]);
    assert_eq!(out[1], data[2]);
    assert_eq!(out[2], data[4]);
}
