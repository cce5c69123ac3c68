use vstd::prelude::*;

verus! {

/// One point of a client's traffic series.
#[derive(Debug, Clone, Copy, PartialEq, Eq, Structural)]
pub struct Sample {
    pub ts: i64,
    pub rx_bytes: u64,
    pub tx_bytes: u64,
    pub rx_peak: u64,
    pub tx_peak: u64,
    pub conns: u32,
}

/// `x` clamped to the range of `u64` from above.
pub open spec fn clamp_u64(x: int) -> u64 {
    if x > u64::MAX { u64::MAX } else { x as u64 }
}

/// The sum of `f` over the samples.
pub open spec fn sum_of(s: Seq<Sample>, f: spec_fn(Sample) -> u64) -> int
    decreases s.len(),
{
    if s.len() == 0 {
        0
    } else {
        sum_of(s.drop_last(), f) + f(s.last())
    }
}

/// The largest value of `f` over the samples, or 0 when there are none.
pub open spec fn max_of(s: Seq<Sample>, f: spec_fn(Sample) -> u64) -> u64
    decreases s.len(),
{
    if s.len() == 0 {
        0
    } else {
        let m = max_of(s.drop_last(), f);
        let x = f(s.last());
        if m >= x { m } else { x }
    }
}

/// The largest connection count over the samples, or 0 when there are none.
pub open spec fn max_conns(s: Seq<Sample>) -> u32
    decreases s.len(),
{
    if s.len() == 0 {
        0
    } else {
        let m = max_conns(s.drop_last());
        if m >= s.last().conns { m } else { s.last().conns }
    }
}

pub open spec fn rx_bytes_of() -> spec_fn(Sample) -> u64 { |s: Sample| s.rx_bytes }
pub open spec fn tx_bytes_of() -> spec_fn(Sample) -> u64 { |s: Sample| s.tx_bytes }
pub open spec fn rx_peak_of() -> spec_fn(Sample) -> u64 { |s: Sample| s.rx_peak }
pub open spec fn tx_peak_of() -> spec_fn(Sample) -> u64 { |s: Sample| s.tx_peak }

/// The sample that stands for a whole bucket: byte volumes add up (saturating
/// at `u64::MAX`), peaks and connection counts take the largest value.
pub open spec fn aggregate_spec(s: Seq<Sample>, bucket_ts: i64) -> Sample {
    Sample {
        ts: bucket_ts,
        rx_bytes: clamp_u64(sum_of(s, rx_bytes_of())),
        tx_bytes: clamp_u64(sum_of(s, tx_bytes_of())),
        rx_peak: max_of(s, rx_peak_of()),
        tx_peak: max_of(s, tx_peak_of()),
        conns: max_conns(s),
    }
}

/// `a * b`, saturating at `u64::MAX`.
pub fn sat_mul(a: u64, b: u64) -> (r: u64)
    ensures
        r == clamp_u64(a * b),
{
    match a.checked_mul(b) {
        Some(p) => p,
        None => u64::MAX,
    }
}

proof fn lemma_sum_nonneg(s: Seq<Sample>, f: spec_fn(Sample) -> u64)
    ensures
        sum_of(s, f) >= 0,
    decreases s.len(),
{
    if s.len() > 0 {
        lemma_sum_nonneg(s.drop_last(), f);
    }
}

/// Combines the samples of one bucket into a single sample stamped `bucket_ts`.
pub fn aggregate(samples: &[Sample], bucket_ts: i64) -> (out: Sample)
    ensures
        out == aggregate_spec(samples@, bucket_ts),
{
    let mut out = Sample { ts: bucket_ts, rx_bytes: 0, tx_bytes: 0, rx_peak: 0, tx_peak: 0, conns: 0 };
    let mut i: usize = 0;
    while i < samples.len()
        invariant
            i <= samples@.len(),
            out == aggregate_spec(samples@.subrange(0, i as int), bucket_ts),
        decreases samples@.len() - i,
    {
        let s = samples[i];
        let ghost pre = samples@.subrange(0, i as int);
        let ghost post = samples@.subrange(0, i + 1);
        assert(post.drop_last() =~= pre);
        assert(post.last() == s);
        proof {
            lemma_sum_nonneg(pre, rx_bytes_of());
            lemma_sum_nonneg(pre, tx_bytes_of());
        }
        out.rx_bytes = out.rx_bytes.saturating_add(s.rx_bytes);
        out.tx_bytes = out.tx_bytes.saturating_add(s.tx_bytes);
        out.rx_peak = if out.rx_peak >= s.rx_peak { out.rx_peak } else { s.rx_peak };
        out.tx_peak = if out.tx_peak >= s.tx_peak { out.tx_peak } else { s.tx_peak };
        out.conns = if out.conns >= s.conns { out.conns } else { s.conns };
        i = i + 1;
    }
    assert(samples@.subrange(0, samples@.len() as int) =~= samples@);
    out
}

} // verus!
