use overwatchd::sample::{aggregate, sat_mul, Sample};

fn s(ts: i64, rx: u64, tx: u64, rp: u64, tp: u64, c: u32) -> Sample {
    Sample { ts, rx_bytes: rx, tx_bytes: tx, rx_peak: rp, tx_peak: tp, conns: c }
}

#[test]
fn aggregate_sums_bytes_and_maxes_peaks() {
    let input = [s(10, 100, 10, 500, 50, 3), s(20, 200, 20, 400, 80, 5), s(30, 300, 30, 900, 40, 2)];
    let out = aggregate(&input, 0);
    assert_eq!(out.ts, 0);
    assert_eq!(out.rx_bytes, 600);
    assert_eq!(out.tx_bytes, 60);
    assert_eq!(out.rx_peak, 900);
    assert_eq!(out.tx_peak, 80);
    assert_eq!(out.conns, 5);
}

#[test]
fn aggregate_empty_is_zero_at_bucket_ts() {
    let out = aggregate(&[], 1234);
    assert_eq!(out, s(1234, 0, 0, 0, 0, 0));
}

#[test]
fn aggregate_saturates_byte_sums() {
    let input = [s(1, u64::MAX, 5, 1, 1, 1), s(2, 10, 7, 2, 2, 2)];
    let out = aggregate(&input, 60);
    assert_eq!(out.rx_bytes, u64::MAX);
    assert_eq!(out.tx_bytes, 12);
}

#[test]
fn sat_mul_clamps() {
    assert_eq!(sat_mul(1000, 8), 8000);
    assert_eq!(sat_mul(u64::MAX, 2), u64::MAX);
}
