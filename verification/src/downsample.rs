use vstd::prelude::*;
use crate::sample::{clamp_u64, Sample};
use crate::wide::{abs, wide_add, mag_gt, mul_signed, negate, pow128, split_sign, Wide};

verus! {

/// The value a point is ranked by: its total byte volume, saturating.
pub open spec fn point_value(s: Sample) -> u64 {
    clamp_u64(s.rx_bytes + s.tx_bytes)
}

/// Bucket boundary `k`: `floor(k * (n - 2) / (t - 2)) + 1`.
pub open spec fn bound(n: int, t: int, k: int) -> int {
    (k * (n - 2)) / (t - 2) + 1
}

pub open spec fn min_int(a: int, b: int) -> int {
    if a <= b { a } else { b }
}

/// First index of the bucket that point `i` (of the `t - 2` middle points) is chosen from.
pub open spec fn range_start(n: int, t: int, i: int) -> int {
    bound(n, t, i)
}

/// One past the last index of that bucket.
pub open spec fn range_end(n: int, t: int, i: int) -> int {
    min_int(bound(n, t, i + 1), n)
}

/// First index of the next bucket, whose average is the third corner of the triangle.
pub open spec fn avg_start(n: int, t: int, i: int) -> int {
    if bound(n, t, i + 1) >= n { n - 1 } else { bound(n, t, i + 1) }
}

/// One past the last index that the average covers.
pub open spec fn avg_end(n: int, t: int, i: int) -> int {
    let e = min_int(bound(n, t, i + 2), n);
    if e < avg_start(n, t, i) + 1 { avg_start(n, t, i) + 1 } else { e }
}

/// The sum of the timestamps of `s[lo..hi]`.
pub open spec fn sum_ts(s: Seq<Sample>, lo: int, hi: int) -> int
    decreases hi - lo,
{
    if hi <= lo { 0 } else { sum_ts(s, lo, hi - 1) + s[hi - 1].ts }
}

/// The sum of the values of `s[lo..hi]`.
pub open spec fn sum_val(s: Seq<Sample>, lo: int, hi: int) -> int
    decreases hi - lo,
{
    if hi <= lo { 0 } else { sum_val(s, lo, hi - 1) + point_value(s[hi - 1]) }
}

/// Twice the area of the triangle between point A `(xa, va)`, candidate
/// `(xj, vj)` and the average `(sx / c, sy / c)` of the next bucket, times `c`
/// and with its sign: `(xa*c - sx)(vj - va) - (xa - xj)(sy - va*c)`.
pub open spec fn area_num(xa: int, va: int, xj: int, vj: int, sx: int, sy: int, c: int) -> int {
    (xa * c - sx) * (vj - va) - (xa - xj) * (sy - va * c)
}

/// How candidate `j` ranks when the last chosen point is `a` and the current bucket is `i`.
pub open spec fn area_rank(s: Seq<Sample>, t: int, a: int, i: int, j: int) -> int {
    let n = s.len() as int;
    let lo = avg_start(n, t, i);
    let hi = avg_end(n, t, i);
    abs(
        area_num(
            s[a].ts as int,
            point_value(s[a]) as int,
            s[j].ts as int,
            point_value(s[j]) as int,
            sum_ts(s, lo, hi),
            sum_val(s, lo, hi),
            hi - lo,
        ),
    )
}

/// The first index in `[range_start, end)` with the largest rank (the range
/// start itself when the range is empty).
pub open spec fn best_in(s: Seq<Sample>, t: int, a: int, i: int, end: int) -> int
    decreases end - range_start(s.len() as int, t, i),
{
    let rs = range_start(s.len() as int, t, i);
    if end <= rs + 1 {
        rs
    } else {
        let b = best_in(s, t, a, i, end - 1);
        if area_rank(s, t, a, i, end - 1) > area_rank(s, t, a, i, b) { end - 1 } else { b }
    }
}

/// The index chosen for middle point `k`.
pub open spec fn chosen(s: Seq<Sample>, t: int, k: nat) -> int
    decreases k,
{
    let prev = if k == 0 { 0 } else { chosen(s, t, (k - 1) as nat) };
    best_in(s, t, prev, k as int, range_end(s.len() as int, t, k as int))
}

/// Largest-triangle-three-buckets downsampling: the input unchanged when
/// `t < 3` or `t >= n`; otherwise the first point, one point chosen from each
/// of `t - 2` buckets, and the last point.
pub open spec fn lttb_spec(s: Seq<Sample>, t: int) -> Seq<Sample> {
    let n = s.len() as int;
    if t < 3 || t >= n {
        s
    } else {
        seq![s[0]] + Seq::new((t - 2) as nat, |k: int| s[chosen(s, t, k as nat)]) + seq![
            s[n - 1],
        ]
    }
}

proof fn lemma_sum_ts_bound(s: Seq<Sample>, lo: int, hi: int)
    requires
        lo <= hi,
    ensures
        abs(sum_ts(s, lo, hi)) <= (hi - lo) * 0x8000_0000_0000_0000int,
    decreases hi - lo,
{
    if hi > lo {
        lemma_sum_ts_bound(s, lo, hi - 1);
    }
}

proof fn lemma_sum_val_bound(s: Seq<Sample>, lo: int, hi: int)
    requires
        lo <= hi,
    ensures
        0 <= sum_val(s, lo, hi) <= (hi - lo) * 0xffff_ffff_ffff_ffffint,
    decreases hi - lo,
{
    if hi > lo {
        lemma_sum_val_bound(s, lo, hi - 1);
    }
}

proof fn lemma_mul_le(a: int, b: int, x: int, y: int)
    requires
        0 <= a <= x,
        0 <= b <= y,
    ensures
        0 <= a * b <= x * y,
{
    assert(0 <= a * b <= x * y) by (nonlinear_arith)
        requires
            0 <= a <= x,
            0 <= b <= y,
    ;
}

/// The rank `|area_num|` computed exactly.
fn area_rank_exec(xa: i64, va: u64, xj: i64, vj: u64, sx: i128, sy: u128, c: u128) -> (r: Wide)
    requires
        1 <= c <= 0xffff_ffff_ffff_ffff,
        abs(sx as int) <= c * 0x8000_0000_0000_0000int,
        sy <= c * 0xffff_ffff_ffff_ffffint,
    ensures
        r.mag() == abs(area_num(xa as int, va as int, xj as int, vj as int, sx as int, sy as int, c as int)),
{
    proof {
        lemma_mul_le(abs(xa as int), c as int, 0x8000_0000_0000_0000int, 0xffff_ffff_ffff_ffffint);
        lemma_mul_le(va as int, c as int, 0xffff_ffff_ffff_ffffint, 0xffff_ffff_ffff_ffffint);
        assert(abs(xa * c) == abs(xa as int) * c) by (nonlinear_arith)
            requires
                c >= 0,
        ;
    }
    let xac: i128 = (xa as i128) * (c as i128);
    let dv: i128 = (vj as i128) - (va as i128);
    let dx: i128 = (xa as i128) - (xj as i128);
    let vac: u128 = (va as u128) * c;
    let (n1, m1) = split_sign(xac);
    let (n2, m2) = split_sign(sx);
    let (nd, md) = split_sign(dv);
    let (nx, mx) = split_sign(dx);
    let t1 = mul_signed(n1, m1, nd, md);
    let t2 = mul_signed(n2, m2, nd, md);
    let t3 = mul_signed(nx, mx, false, sy);
    let t4 = mul_signed(nx, mx, false, vac);
    let ghost big: int = 0x1_0000_0000_0000_0000_0000_0000_0000_0000_0000_0000_0000_0000int;
    proof {
        let b127 = 0x8000_0000_0000_0000_0000_0000_0000_0000int;
        let b65 = 0x2_0000_0000_0000_0000int;
        let b128 = pow128();
        assert(m1 <= b127);
        assert(m2 <= b127) by {
            lemma_mul_le(c as int, 1, 0xffff_ffff_ffff_ffffint, 1);
        }
        assert(md <= b65);
        assert(mx <= b65);
        lemma_mul_le(m1 as int, md as int, b127, b65);
        lemma_mul_le(m2 as int, md as int, b127, b65);
        lemma_mul_le(mx as int, sy as int, b65, b128);
        lemma_mul_le(mx as int, vac as int, b65, b128);
        assert(b127 * b65 == big);
        assert(b65 * b128 == 2 * big);
        assert(pow128() * pow128() > 8 * big);
        assert(t1.mag() == abs(t1.val()));
        assert(t2.mag() == abs(t2.val()));
        assert(t3.mag() == abs(t3.val()));
        assert(t4.mag() == abs(t4.val()));
    }
    let u = wide_add(t1, negate(t2));
    let v = wide_add(u, negate(t3));
    let w = wide_add(v, t4);
    proof {
        let xa_ = xa as int;
        let va_ = va as int;
        let xj_ = xj as int;
        let vj_ = vj as int;
        let sx_ = sx as int;
        let sy_ = sy as int;
        let c_ = c as int;
        assert(t1.val() == (xa_ * c_) * (vj_ - va_));
        assert(t2.val() == sx_ * (vj_ - va_));
        assert(t3.val() == (xa_ - xj_) * sy_);
        assert(t4.val() == (xa_ - xj_) * (va_ * c_));
        assert(area_num(xa_, va_, xj_, vj_, sx_, sy_, c_) == (xa_ * c_) * (vj_ - va_) - sx_ * (vj_
            - va_) - (xa_ - xj_) * sy_ + (xa_ - xj_) * (va_ * c_)) by (nonlinear_arith);
    }
    w
}

proof fn lemma_bound_below(n: int, t: int, i: int)
    requires
        3 <= t < n,
        0 <= i < t - 2,
    ensures
        1 <= bound(n, t, i) <= n - 2,
{
    let m = n - 2;
    let d = t - 2;
    let x = i * m;
    assert(0 <= x <= d * m - m) by (nonlinear_arith)
        requires
            0 <= i <= d - 1,
            m >= 1,
            x == i * m,
    ;
    vstd::arithmetic::div_mod::lemma_fundamental_div_mod(x, d);
    let q = x / d;
    assert(q >= 0) by (nonlinear_arith)
        requires
            x >= 0,
            d > 0,
            q == x / d,
    ;
    if q >= m {
        assert(d * q >= d * m) by (nonlinear_arith)
            requires
                q >= m,
                d > 0,
        ;
    }
}

proof fn lemma_bound_mono(n: int, t: int, i: int, j: int)
    requires
        3 <= t < n,
        0 <= i <= j,
    ensures
        bound(n, t, i) <= bound(n, t, j),
{
    assert(i * (n - 2) <= j * (n - 2)) by (nonlinear_arith)
        requires
            0 <= i <= j,
            n >= 2,
    ;
    vstd::arithmetic::div_mod::lemma_div_is_ordered(i * (n - 2), j * (n - 2), t - 2);
}

proof fn lemma_best_in_range(s: Seq<Sample>, t: int, a: int, i: int, end: int)
    ensures
        range_start(s.len() as int, t, i) <= best_in(s, t, a, i, end),
        best_in(s, t, a, i, end) < end || best_in(s, t, a, i, end) == range_start(
            s.len() as int,
            t,
            i,
        ),
    decreases end - range_start(s.len() as int, t, i),
{
    let rs = range_start(s.len() as int, t, i);
    if end > rs + 1 {
        lemma_best_in_range(s, t, a, i, end - 1);
    }
}

/// The value a point is ranked by.
fn value_exec(s: &Sample) -> (v: u64)
    ensures
        v == point_value(*s),
{
    s.rx_bytes.saturating_add(s.tx_bytes)
}

/// Bucket boundary `k`, computed without overflow.
fn bound_exec(n: usize, t: usize, k: usize) -> (b: u128)
    requires
        3 <= t < n,
        k <= t,
    ensures
        b == bound(n as int, t as int, k as int),
{
    proof {
        assert((k as int) * ((n - 2) as int) <= 0xffff_ffff_ffff_ffffint * 0xffff_ffff_ffff_ffffint)
            by (nonlinear_arith)
            requires
                0 <= k <= 0xffff_ffff_ffff_ffffint,
                0 <= n - 2 <= 0xffff_ffff_ffff_ffffint,
        ;
    }
    let prod: u128 = (k as u128) * ((n - 2) as u128);
    let q: u128 = prod / ((t - 2) as u128);
    proof {
        vstd::arithmetic::div_mod::lemma_div_is_ordered_by_denominator(prod as int, 1, (t - 2) as int);
    }
    q + 1
}

/// Downsamples a series to at most `threshold` points with the
/// largest-triangle-three-buckets method, keeping the first and last point.
/// Triangle areas are compared exactly.
pub fn lttb(samples: &[Sample], threshold: usize) -> (out: Vec<Sample>)
    ensures
        out@ == lttb_spec(samples@, threshold as int),
{
    let n = samples.len();
    if threshold < 3 || threshold >= n {
        let mut copy: Vec<Sample> = Vec::new();
        let mut k: usize = 0;
        while k < n
            invariant
                n == samples@.len(),
                k <= n,
                copy@ =~= samples@.subrange(0, k as int),
            decreases n - k,
        {
            copy.push(samples[k]);
            k = k + 1;
        }
        return copy;
    }
    let ghost s = samples@;
    let ghost tt = threshold as int;
    let mut sampled: Vec<Sample> = Vec::new();
    sampled.push(samples[0]);
    let mut a: usize = 0;
    let mut i: usize = 0;
    let mid = threshold - 2;
    while i < mid
        invariant
            s == samples@,
            n == s.len(),
            tt == threshold,
            3 <= threshold < n,
            mid == threshold - 2,
            i <= mid,
            a < n,
            a == (if i == 0 { 0 } else { chosen(s, tt, (i - 1) as nat) }),
            sampled@ =~= seq![s[0]] + Seq::new(i as nat, |k: int| s[chosen(s, tt, k as nat)]),
        decreases mid - i,
    {
        proof {
            lemma_bound_below(n as int, tt, i as int);
            lemma_bound_mono(n as int, tt, i as int, (i + 1) as int);
            lemma_bound_mono(n as int, tt, (i + 1) as int, (i + 2) as int);
        }
        let rs_w = bound_exec(n, threshold, i);
        let b1 = bound_exec(n, threshold, i + 1);
        let b2 = bound_exec(n, threshold, i + 2);
        let rs = rs_w as usize;
        let re: usize = if b1 < n as u128 { b1 as usize } else { n };
        let lo: usize = if b1 >= n as u128 { n - 1 } else { b1 as usize };
        let e: usize = if b2 < n as u128 { b2 as usize } else { n };
        let hi: usize = if e < lo + 1 { lo + 1 } else { e };
        assert(rs == range_start(n as int, tt, i as int));
        assert(re == range_end(n as int, tt, i as int));
        assert(lo == avg_start(n as int, tt, i as int));
        assert(hi == avg_end(n as int, tt, i as int));
        // Sums over the next bucket.
        let mut sx: i128 = 0;
        let mut sy: u128 = 0;
        let mut k: usize = lo;
        while k < hi
            invariant
                s == samples@,
                n == s.len(),
                lo <= k <= hi <= n,
                sx == sum_ts(s, lo as int, k as int),
                sy == sum_val(s, lo as int, k as int),
            decreases hi - k,
        {
            proof {
                lemma_sum_ts_bound(s, lo as int, k as int);
                lemma_sum_val_bound(s, lo as int, k as int);
                assert((k - lo) * 0x8000_0000_0000_0000int <= 0xffff_ffff_ffff_ffffint
                    * 0x8000_0000_0000_0000int) by (nonlinear_arith)
                    requires
                        0 <= k - lo <= 0xffff_ffff_ffff_ffffint,
                ;
                assert((k - lo) * 0xffff_ffff_ffff_ffffint <= 0xffff_ffff_ffff_ffffint
                    * 0xffff_ffff_ffff_ffffint) by (nonlinear_arith)
                    requires
                        0 <= k - lo <= 0xffff_ffff_ffff_ffffint,
                ;
            }
            sx = sx + samples[k].ts as i128;
            sy = sy + value_exec(&samples[k]) as u128;
            k = k + 1;
        }
        let c: u128 = (hi - lo) as u128;
        proof {
            lemma_sum_ts_bound(s, lo as int, hi as int);
            lemma_sum_val_bound(s, lo as int, hi as int);
        }
        let xa = samples[a].ts;
        let va = value_exec(&samples[a]);
        // Pick the candidate of the current bucket with the largest area.
        let mut best: usize = rs;
        let mut best_key = Wide { neg: false, hi: 0, lo: 0 };
        let mut j: usize = rs;
        while j < re
            invariant
                s == samples@,
                n == s.len(),
                3 <= threshold < n,
                tt == threshold,
                i < mid,
                mid == threshold - 2,
                rs == range_start(n as int, tt, i as int),
                re == range_end(n as int, tt, i as int),
                lo == avg_start(n as int, tt, i as int),
                hi == avg_end(n as int, tt, i as int),
                sx == sum_ts(s, lo as int, hi as int),
                sy == sum_val(s, lo as int, hi as int),
                c == hi - lo,
                1 <= c <= 0xffff_ffff_ffff_ffff,
                abs(sx as int) <= c * 0x8000_0000_0000_0000int,
                sy <= c * 0xffff_ffff_ffff_ffffint,
                a < n,
                xa == s[a as int].ts,
                va == point_value(s[a as int]),
                re <= n,
                rs <= j,
                j <= re || j == rs,
                best == best_in(s, tt, a as int, i as int, j as int),
                j > rs ==> best_key.mag() == area_rank(s, tt, a as int, i as int, best as int),
            decreases re - j,
        {
            let key = area_rank_exec(xa, va, samples[j].ts, value_exec(&samples[j]), sx, sy, c);
            assert(key.mag() == area_rank(s, tt, a as int, i as int, j as int));
            if j == rs || mag_gt(key, best_key) {
                best = j;
                best_key = key;
            }
            j = j + 1;
        }
        proof {
            lemma_best_in_range(s, tt, a as int, i as int, re as int);
        }
        assert(best == chosen(s, tt, i as nat));
        sampled.push(samples[best]);
        a = best;
        i = i + 1;
    }
    sampled.push(samples[n - 1]);
    assert(sampled@ =~= lttb_spec(s, tt));
    sampled
}

proof fn lemma_bound_step(n: int, t: int, i: int)
    requires
        3 <= t < n,
        0 <= i,
    ensures
        bound(n, t, i) < bound(n, t, i + 1),
{
    let m = n - 2;
    let d = t - 2;
    assert((i + 1) * m >= i * m + d) by (nonlinear_arith)
        requires
            m > d,
            i >= 0,
    ;
    assert(i * m >= 0) by (nonlinear_arith)
        requires
            m > 0,
            i >= 0,
    ;
    vstd::arithmetic::div_mod::lemma_hoist_over_denominator(i * m, 1, d as nat);
    vstd::arithmetic::div_mod::lemma_div_is_ordered(i * m + d, (i + 1) * m, d);
}

proof fn lemma_bound_last(n: int, t: int)
    requires
        3 <= t < n,
    ensures
        bound(n, t, t - 2) == n - 1,
{
    vstd::arithmetic::div_mod::lemma_div_by_multiple(n - 2, t - 2);
    assert((t - 2) * (n - 2) == (n - 2) * (t - 2)) by (nonlinear_arith);
}

/// Where output point `k` of a downsampling comes from.
pub open spec fn lttb_source(s: Seq<Sample>, t: int, k: int) -> int {
    if k == 0 {
        0
    } else if k == t - 1 {
        s.len() - 1
    } else {
        chosen(s, t, (k - 1) as nat)
    }
}

proof fn lemma_chosen_in_bucket(s: Seq<Sample>, t: int, k: nat)
    requires
        3 <= t < s.len(),
        k < t - 2,
    ensures
        bound(s.len() as int, t, k as int) <= chosen(s, t, k) < bound(s.len() as int, t, (k + 1) as int),
{
    let n = s.len() as int;
    lemma_bound_step(n, t, k as int);
    lemma_bound_mono(n, t, (k + 1) as int, t - 2);
    lemma_bound_last(n, t);
    let prev = if k == 0 { 0 } else { chosen(s, t, (k - 1) as nat) };
    lemma_best_in_range(s, t, prev, k as int, range_end(n, t, k as int));
}

/// A sample with its download and upload (bytes and peaks) exchanged.
pub open spec fn swap_dir(x: Sample) -> Sample {
    Sample { ts: x.ts, rx_bytes: x.tx_bytes, tx_bytes: x.rx_bytes, rx_peak: x.tx_peak, tx_peak: x.rx_peak, conns: x.conns }
}

/// Every sample of a series with download and upload exchanged.
pub open spec fn swap_series(s: Seq<Sample>) -> Seq<Sample> {
    s.map_values(|x: Sample| swap_dir(x))
}

/// Whether two series have the same timestamps and the same total volumes
/// (download plus upload, saturating) position by position.
pub open spec fn same_volumes(s: Seq<Sample>, s2: Seq<Sample>) -> bool {
    &&& s.len() == s2.len()
    &&& forall|i: int| 0 <= i < s.len() ==> (#[trigger] s2[i]).ts == s[i].ts && clamp_u64(
        s2[i].rx_bytes + s2[i].tx_bytes,
    ) == clamp_u64(s[i].rx_bytes + s[i].tx_bytes)
}

proof fn lemma_same_sums(s: Seq<Sample>, s2: Seq<Sample>, lo: int, hi: int)
    requires
        same_volumes(s, s2),
        0 <= lo,
        hi <= s.len(),
    ensures
        sum_ts(s2, lo, hi) == sum_ts(s, lo, hi),
        sum_val(s2, lo, hi) == sum_val(s, lo, hi),
    decreases hi - lo,
{
    if hi > lo {
        lemma_same_sums(s, s2, lo, hi - 1);
        assert(s2[hi - 1].ts == s[hi - 1].ts);
    }
}

proof fn lemma_bound_pos(n: int, t: int, i: int)
    requires
        3 <= t < n,
        0 <= i,
    ensures
        1 <= bound(n, t, i),
        0 <= avg_start(n, t, i) < avg_end(n, t, i) <= n,
{
    assert(i * (n - 2) >= 0) by (nonlinear_arith)
        requires
            i >= 0,
            n >= 2,
    ;
    vstd::arithmetic::div_mod::lemma_div_pos_is_pos(i * (n - 2), t - 2);
    assert((i + 1) * (n - 2) >= 0) by (nonlinear_arith)
        requires
            i >= 0,
            n >= 2,
    ;
    vstd::arithmetic::div_mod::lemma_div_pos_is_pos((i + 1) * (n - 2), t - 2);
}

proof fn lemma_same_best(s: Seq<Sample>, s2: Seq<Sample>, t: int, a: int, i: int, end: int)
    requires
        same_volumes(s, s2),
        3 <= t < s.len(),
        0 <= a < s.len(),
        0 <= i,
        end <= s.len(),
    ensures
        best_in(s2, t, a, i, end) == best_in(s, t, a, i, end),
    decreases end - range_start(s.len() as int, t, i),
{
    let n = s.len() as int;
    let rs = range_start(n, t, i);
    if end > rs + 1 {
        lemma_same_best(s, s2, t, a, i, end - 1);
        let b = best_in(s, t, a, i, end - 1);
        lemma_bound_pos(n, t, i);
        lemma_same_sums(s, s2, avg_start(n, t, i), avg_end(n, t, i));
        assert(s2[a].ts == s[a].ts);
        assert(s2[end - 1].ts == s[end - 1].ts);
        lemma_best_in_range(s, t, a, i, end - 1);
        assert(s2[b].ts == s[b].ts);
        assert(area_rank(s2, t, a, i, end - 1) == area_rank(s, t, a, i, end - 1));
        assert(area_rank(s2, t, a, i, b) == area_rank(s, t, a, i, b));
    }
}

proof fn lemma_same_chosen(s: Seq<Sample>, s2: Seq<Sample>, t: int, k: nat)
    requires
        same_volumes(s, s2),
        3 <= t < s.len(),
        k < t - 2,
    ensures
        chosen(s2, t, k) == chosen(s, t, k),
    decreases k,
{
    let n = s.len() as int;
    let prev = if k == 0 { 0 } else { chosen(s, t, (k - 1) as nat) };
    if k > 0 {
        lemma_same_chosen(s, s2, t, (k - 1) as nat);
        lemma_chosen_in_bucket(s, t, (k - 1) as nat);
        lemma_bound_mono(n, t, k as int, t - 2);
        lemma_bound_last(n, t);
    }
    lemma_same_best(s, s2, t, prev, k as int, range_end(n, t, k as int));
}

/// Downsampling sees a point only through its timestamp and its total
/// volume: two series with the same timestamps and the same download-plus-
/// upload totals (saturating) at every position are downsampled to the same
/// positions, however the bytes split between download and upload.
pub proof fn lemma_lttb_volume_only(s: Seq<Sample>, s2: Seq<Sample>, t: int)
    requires
        same_volumes(s, s2),
    ensures
        lttb_spec(s2, t).len() == lttb_spec(s, t).len(),
        3 <= t < s.len() ==> forall|k: int| 0 <= k < t ==> #[trigger] lttb_source(s2, t, k) == lttb_source(s, t, k),
        forall|k: int| 0 <= k < lttb_spec(s, t).len() ==> (#[trigger] lttb_spec(s2, t)[k]).ts == lttb_spec(s, t)[k].ts,
{
    let n = s.len() as int;
    if 3 <= t < n {
        lemma_lttb_shape(s, t);
        lemma_lttb_shape(s2, t);
        assert forall|k: int| 0 <= k < t implies #[trigger] lttb_source(s2, t, k) == lttb_source(s, t, k) by {
            if 0 < k < t - 1 {
                lemma_same_chosen(s, s2, t, (k - 1) as nat);
            }
        }
        assert forall|k: int| 0 <= k < t implies (#[trigger] lttb_spec(s2, t)[k]).ts == lttb_spec(s, t)[k].ts by {
            assert(lttb_source(s2, t, k) == lttb_source(s, t, k));
            let j = lttb_source(s, t, k);
            assert(s2[j].ts == s[j].ts);
        }
    } else {
        assert forall|k: int| 0 <= k < lttb_spec(s, t).len() implies (#[trigger] lttb_spec(s2, t)[k]).ts
            == lttb_spec(s, t)[k].ts by {
            assert(s2[k].ts == s[k].ts);
        }
    }
}

/// Points are ranked by their total volume, download and upload alike:
/// exchanging every sample's download and upload exchanges them in the
/// result and picks the same points (so the same timestamps), whatever the
/// series and threshold. A spike in upload is kept just as one in download.
pub proof fn lemma_lttb_direction_blind(s: Seq<Sample>, t: int)
    ensures
        lttb_spec(swap_series(s), t) == swap_series(lttb_spec(s, t)),
        forall|k: int| 0 <= k < lttb_spec(s, t).len() ==> (#[trigger] lttb_spec(swap_series(s), t)[k]).ts
            == lttb_spec(s, t)[k].ts,
{
    let n = s.len() as int;
    let ss = swap_series(s);
    assert(same_volumes(s, ss)) by {
        assert forall|i: int| 0 <= i < s.len() implies (#[trigger] ss[i]).ts == s[i].ts && clamp_u64(
            ss[i].rx_bytes + ss[i].tx_bytes,
        ) == clamp_u64(s[i].rx_bytes + s[i].tx_bytes) by {
            assert(ss[i] == swap_dir(s[i]));
        }
    }
    lemma_lttb_volume_only(s, ss, t);
    if 3 <= t < n {
        let out = lttb_spec(s, t);
        let sout = lttb_spec(ss, t);
        lemma_lttb_shape(s, t);
        lemma_lttb_shape(ss, t);
        assert forall|k: int| 0 <= k < t implies sout[k] == swap_dir(out[k]) by {
            assert(lttb_source(ss, t, k) == lttb_source(s, t, k));
        }
        assert(sout =~= swap_series(out));
    }
}


/// When the threshold is at least 3 and below the number of points, the
/// output has exactly `threshold` points, starts with the first input point,
/// ends with the last, and takes its points from strictly increasing input
/// positions (so a series ordered by time stays ordered by time).
pub proof fn lemma_lttb_shape(s: Seq<Sample>, t: int)
    requires
        3 <= t < s.len(),
    ensures
        lttb_spec(s, t).len() == t,
        lttb_spec(s, t)[0] == s[0],
        lttb_spec(s, t)[t - 1] == s[s.len() - 1],
        forall|k: int| 0 <= k < t ==> 0 <= #[trigger] lttb_source(s, t, k) < s.len() && lttb_spec(s, t)[k]
            == s[lttb_source(s, t, k)],
        forall|k1: int, k2: int|
            0 <= k1 < k2 < t ==> #[trigger] lttb_source(s, t, k1) < #[trigger] lttb_source(s, t, k2),
{
    let n = s.len() as int;
    let out = lttb_spec(s, t);
    lemma_bound_last(n, t);
    assert forall|k: int| 0 <= k < t implies 0 <= #[trigger] lttb_source(s, t, k) < n && out[k]
        == s[lttb_source(s, t, k)] by {
        if 0 < k < t - 1 {
            lemma_chosen_in_bucket(s, t, (k - 1) as nat);
            lemma_bound_mono(n, t, 0, (k - 1) as int);
            lemma_bound_mono(n, t, k, t - 2);
        }
    }
    assert forall|k1: int, k2: int| 0 <= k1 < k2 < t implies #[trigger] lttb_source(s, t, k1)
        < #[trigger] lttb_source(s, t, k2) by {
        if 0 < k1 {
            lemma_chosen_in_bucket(s, t, (k1 - 1) as nat);
        }
        if k2 < t - 1 {
            lemma_chosen_in_bucket(s, t, (k2 - 1) as nat);
        }
        if 0 < k1 && k2 < t - 1 {
            lemma_bound_mono(n, t, k1, k2 - 1);
        }
        if k1 == 0 && k2 < t - 1 {
            lemma_bound_mono(n, t, 0, k2 - 1);
        }
        if 0 < k1 && k2 == t - 1 {
            lemma_bound_mono(n, t, k1, t - 2);
        }
    }
}

/// When the threshold is below 3 or not below the number of points, the
/// series comes back unchanged.
pub proof fn lemma_lttb_identity(s: Seq<Sample>, t: int)
    requires
        t < 3 || t >= s.len(),
    ensures
        lttb_spec(s, t) == s,
{
}

} // verus!
