use vstd::prelude::*;
use std::collections::BTreeMap;
use crate::history::{
    combine, combine_exec, held, lemma_merge_sample_shape, merge_all, merge_clients, merge_sample, ram_series_spec, ts_increasing,
    window,
};
use crate::recorder::Recorder;
use crate::sample::clamp_u64;
use crate::sample::Sample;

verus! {

/// The samples of a series by timestamp.
pub open spec fn ts_map(v: Seq<Sample>) -> Map<i64, Sample>
    decreases v.len(),
{
    if v.len() == 0 {
        Map::empty()
    } else {
        ts_map(v.drop_first()).insert(v[0].ts, v[0])
    }
}

/// Timestamps obey the order that std's ordered maps rely on.
spec fn i64_keys_ordered() -> bool {
    &&& vstd::laws_cmp::obeys_cmp::<i64>()
    &&& vstd::std_specs::btree::key_obeys_cmp_spec::<i64>()
}

proof fn lemma_i64_keys_ordered()
    ensures
        i64_keys_ordered(),
{
    broadcast use vstd::laws_cmp::group_laws_cmp;
    broadcast use vstd::std_specs::btree::group_btree_axioms;
}

proof fn lemma_keys_increase(ks: Seq<i64>)
    requires
        vstd::std_specs::btree::increasing_seq(ks),
    ensures
        forall|a: int, b: int| 0 <= a < b < ks.len() ==> ks[a] < ks[b],
{
    broadcast use vstd::std_specs::btree::group_btree_axioms;
    lemma_i64_keys_ordered();
    assert forall|a: int, b: int| 0 <= a < b < ks.len() implies ks[a] < ks[b] by {
        assert(vstd::std_specs::cmp::OrdSpec::cmp_spec(&ks[a], &ks[b]) is Less);
    }
}

proof fn lemma_increasing_rest(v: Seq<Sample>)
    requires
        ts_increasing(v),
        v.len() > 0,
    ensures
        ts_increasing(v.drop_first()),
{
    let r = v.drop_first();
    assert forall|i: int, j: int| 0 <= i < j < r.len() implies r[i].ts < r[j].ts by {
        assert(r[i] == v[i + 1]);
        assert(r[j] == v[j + 1]);
    }
}

proof fn lemma_ts_map_dom(v: Seq<Sample>, k: i64)
    ensures
        ts_map(v).contains_key(k) <==> exists|i: int| 0 <= i < v.len() && (#[trigger] v[i]).ts == k,
    decreases v.len(),
{
    if v.len() > 0 {
        let r = v.drop_first();
        lemma_ts_map_dom(r, k);
        if exists|i: int| 0 <= i < r.len() && (#[trigger] r[i]).ts == k {
            let i = choose|i: int| 0 <= i < r.len() && (#[trigger] r[i]).ts == k;
            assert(v[i + 1] == r[i]);
        }
        if exists|i: int| 0 <= i < v.len() && (#[trigger] v[i]).ts == k {
            let i = choose|i: int| 0 <= i < v.len() && (#[trigger] v[i]).ts == k;
            if i > 0 {
                assert(r[i - 1] == v[i]);
            }
        }
    }
}

proof fn lemma_ts_map_val(v: Seq<Sample>, i: int)
    requires
        ts_increasing(v),
        0 <= i < v.len(),
    ensures
        ts_map(v).contains_key(v[i].ts),
        ts_map(v)[v[i].ts] == v[i],
    decreases v.len(),
{
    if i > 0 {
        lemma_increasing_rest(v);
        lemma_ts_map_val(v.drop_first(), i - 1);
        assert(v.drop_first()[i - 1] == v[i]);
    }
}

proof fn lemma_ts_map_stamps(v: Seq<Sample>, k: i64)
    requires
        ts_map(v).contains_key(k),
    ensures
        ts_map(v)[k].ts == k,
    decreases v.len(),
{
    if v.len() > 0 && k != v[0].ts {
        lemma_ts_map_stamps(v.drop_first(), k);
    }
}

/// Merging one sample into a series ordered by timestamp adds it to, or
/// combines it with, the entry of its timestamp.
proof fn lemma_ts_map_merge(acc: Seq<Sample>, s: Sample)
    requires
        ts_increasing(acc),
    ensures
        ts_map(merge_sample(acc, s)) == ts_map(acc).insert(
            s.ts,
            if ts_map(acc).contains_key(s.ts) { combine(ts_map(acc)[s.ts], s) } else { s },
        ),
    decreases acc.len(),
{
    if acc.len() == 0 {
        let m = merge_sample(acc, s);
        assert(m == seq![s]);
        assert(m.drop_first() =~= Seq::<Sample>::empty());
        assert(ts_map(m.drop_first()) == Map::<i64, Sample>::empty());
        assert(ts_map(acc) == Map::<i64, Sample>::empty());
        assert(ts_map(m) =~= ts_map(acc).insert(s.ts, s));
    } else {
        let rest = acc.drop_first();
        lemma_increasing_rest(acc);
        let m = merge_sample(acc, s);
        if acc[0].ts == s.ts {
            assert(m.drop_first() =~= rest);
            assert(ts_map(m) =~= ts_map(acc).insert(s.ts, combine(ts_map(acc)[s.ts], s)));
        } else if acc[0].ts > s.ts {
            assert(m.drop_first() =~= acc);
            lemma_ts_map_dom(acc, s.ts);
            if ts_map(acc).contains_key(s.ts) {
                let i = choose|i: int| 0 <= i < acc.len() && (#[trigger] acc[i]).ts == s.ts;
                if i > 0 {
                    assert(acc[0].ts < acc[i].ts);
                }
            }
        } else {
            lemma_ts_map_merge(rest, s);
            assert(m.drop_first() =~= merge_sample(rest, s));
            lemma_ts_map_dom(rest, acc[0].ts);
            if ts_map(rest).contains_key(acc[0].ts) {
                let i = choose|i: int| 0 <= i < rest.len() && (#[trigger] rest[i]).ts == acc[0].ts;
                assert(rest[i] == acc[i + 1]);
            }
            assert(ts_map(m) =~= ts_map(acc).insert(
                s.ts,
                if ts_map(acc).contains_key(s.ts) { combine(ts_map(acc)[s.ts], s) } else { s },
            ));
        }
    }
}

/// A series ordered by timestamp is fixed by its samples by timestamp.
proof fn lemma_ts_map_unique(a: Seq<Sample>, b: Seq<Sample>)
    requires
        ts_increasing(a),
        ts_increasing(b),
        ts_map(a) == ts_map(b),
    ensures
        a == b,
    decreases a.len(),
{
    if a.len() == 0 {
        if b.len() > 0 {
            lemma_ts_map_val(b, 0);
        }
        assert(a =~= b);
    } else {
        lemma_ts_map_val(a, 0);
        lemma_ts_map_dom(b, a[0].ts);
        assert(b.len() > 0);
        lemma_ts_map_val(b, 0);
        lemma_ts_map_dom(a, b[0].ts);
        let j = choose|j: int| 0 <= j < b.len() && (#[trigger] b[j]).ts == a[0].ts;
        let i = choose|i: int| 0 <= i < a.len() && (#[trigger] a[i]).ts == b[0].ts;
        if j > 0 {
            assert(b[0].ts < b[j].ts);
        }
        if i > 0 {
            assert(a[0].ts < a[i].ts);
        }
        assert(a[0].ts == b[0].ts);
        assert(a[0] == b[0]);
        let ra = a.drop_first();
        let rb = b.drop_first();
        lemma_increasing_rest(a);
        lemma_increasing_rest(b);
        lemma_ts_map_dom(ra, a[0].ts);
        lemma_ts_map_dom(rb, a[0].ts);
        if ts_map(ra).contains_key(a[0].ts) {
            let k = choose|k: int| 0 <= k < ra.len() && (#[trigger] ra[k]).ts == a[0].ts;
            assert(ra[k] == a[k + 1]);
        }
        if ts_map(rb).contains_key(a[0].ts) {
            let k = choose|k: int| 0 <= k < rb.len() && (#[trigger] rb[k]).ts == a[0].ts;
            assert(rb[k] == b[k + 1]);
        }
        assert(ts_map(ra) =~= ts_map(a).remove(a[0].ts));
        assert(ts_map(rb) =~= ts_map(b).remove(a[0].ts));
        lemma_ts_map_unique(ra, rb);
        assert(a =~= seq![a[0]] + ra);
        assert(b =~= seq![b[0]] + rb);
    }
}

/// The series of several clients merged per timestamp, keyed by timestamp
/// in an ordered map while merging.
pub(crate) fn merge_windows(groups: &Vec<Vec<Sample>>) -> (r: Vec<Sample>)
    ensures
        r@ == merge_clients(groups@.map_values(|g: Vec<Sample>| g@)),
{
    proof {
        lemma_i64_keys_ordered();
    }
    let ghost gs = groups@.map_values(|g: Vec<Sample>| g@);
    let mut by_ts: BTreeMap<i64, Sample> = BTreeMap::new();
    let ghost mut merged: Seq<Sample> = Seq::empty();
    assert(by_ts@ =~= ts_map(merged));
    assert(gs.subrange(0, 0) =~= Seq::<Seq<Sample>>::empty());
    let mut i: usize = 0;
    while i < groups.len()
        invariant
            i64_keys_ordered(),
            gs == groups@.map_values(|g: Vec<Sample>| g@),
            i <= groups@.len(),
            by_ts@ == ts_map(merged),
            ts_increasing(merged),
            merged == merge_clients(gs.subrange(0, i as int)),
        decreases groups@.len() - i,
    {
        let g = &groups[i];
        let ghost base = merged;
        assert(g@.subrange(0, 0) =~= Seq::<Sample>::empty());
        let mut k: usize = 0;
        while k < g.len()
            invariant
                i64_keys_ordered(),
                k <= g@.len(),
                by_ts@ == ts_map(merged),
                ts_increasing(merged),
                merged == merge_all(base, g@.subrange(0, k as int)),
            decreases g@.len() - k,
        {
            let s = g[k];
            let v = match by_ts.get(&s.ts) {
                Some(e) => combine_exec(*e, s),
                None => s,
            };
            proof {
                lemma_ts_map_merge(merged, s);
                lemma_merge_sample_shape(merged, s, 0, 0);
                assert(g@.subrange(0, k + 1).drop_last() =~= g@.subrange(0, k as int));
                assert(g@.subrange(0, k + 1).last() == s);
                merged = merge_sample(merged, s);
            }
            by_ts.insert(s.ts, v);
            k = k + 1;
        }
        proof {
            assert(g@.subrange(0, g@.len() as int) =~= g@);
            assert(gs.subrange(0, i + 1).drop_last() =~= gs.subrange(0, i as int));
            assert(gs.subrange(0, i + 1).last() == g@);
        }
        i = i + 1;
    }
    assert(gs.subrange(0, groups@.len() as int) =~= gs);
    let mut out: Vec<Sample> = Vec::new();
    let values = by_ts.values();
    let ghost keys = choose|ks: Seq<i64>|
        {
            &&& vstd::std_specs::btree::increasing_seq(ks)
            &&& ks.to_set() == by_ts@.dom()
            &&& ks.no_duplicates()
            &&& vstd::std_specs::iter::IteratorSpec::remaining(&values) == ks.map(|j: int, key: i64| &by_ts@[key])
        };
    for v in it: values
        invariant
            out@.len() == it.index(),
            forall|j: int| 0 <= j < it.index() ==> out@[j] == *it.seq()[j],
    {
        out.push(*v);
    }
    proof {
        let m = by_ts@;
        assert(out@.len() == keys.len());
        assert forall|j: int| 0 <= j < out@.len() implies #[trigger] out@[j] == m[keys[j]] && m.contains_key(keys[j])
            && out@[j].ts == keys[j] by {
            assert(keys.to_set().contains(keys[j]));
            lemma_ts_map_stamps(merged, keys[j]);
        }
        assert(ts_increasing(out@)) by {
            lemma_keys_increase(keys);
            assert forall|a: int, b: int| 0 <= a < b < out@.len() implies out@[a].ts < out@[b].ts by {
                assert(out@[a].ts == keys[a] && out@[b].ts == keys[b]);
            }
        }
        assert(ts_map(out@) =~= m) by {
            assert forall|key: i64| ts_map(out@).contains_key(key) <==> m.contains_key(key) by {
                lemma_ts_map_dom(out@, key);
                if m.contains_key(key) {
                    assert(keys.to_set().contains(key));
                    let j = choose|j: int| 0 <= j < keys.len() && keys[j] == key;
                    assert(out@[j].ts == key);
                }
            }
            assert forall|key: i64| #[trigger] ts_map(out@).contains_key(key) implies ts_map(out@)[key] == m[key] by {
                lemma_ts_map_dom(out@, key);
                let j = choose|j: int| 0 <= j < out@.len() && (#[trigger] out@[j]).ts == key;
                lemma_ts_map_val(out@, j);
            }
        }
        lemma_ts_map_unique(out@, merged);
    }
    out
}

/// The download bytes of the samples of `v` stamped `k`.
pub open spec fn rx_at(v: Seq<Sample>, k: i64) -> int
    decreases v.len(),
{
    if v.len() == 0 {
        0
    } else {
        rx_at(v.drop_last(), k) + if v.last().ts == k { v.last().rx_bytes as int } else { 0 }
    }
}

/// The upload bytes of the samples of `v` stamped `k`.
pub open spec fn tx_at(v: Seq<Sample>, k: i64) -> int
    decreases v.len(),
{
    if v.len() == 0 {
        0
    } else {
        tx_at(v.drop_last(), k) + if v.last().ts == k { v.last().tx_bytes as int } else { 0 }
    }
}

/// The download bytes stamped `k` over all the series.
pub open spec fn rx_total_at(gs: Seq<Seq<Sample>>, k: i64) -> int
    decreases gs.len(),
{
    if gs.len() == 0 { 0 } else { rx_total_at(gs.drop_last(), k) + rx_at(gs.last(), k) }
}

/// The upload bytes stamped `k` over all the series.
pub open spec fn tx_total_at(gs: Seq<Seq<Sample>>, k: i64) -> int
    decreases gs.len(),
{
    if gs.len() == 0 { 0 } else { tx_total_at(gs.drop_last(), k) + tx_at(gs.last(), k) }
}

proof fn lemma_at_nonneg(v: Seq<Sample>, k: i64)
    ensures
        rx_at(v, k) >= 0,
        tx_at(v, k) >= 0,
    decreases v.len(),
{
    if v.len() > 0 {
        lemma_at_nonneg(v.drop_last(), k);
    }
}

proof fn lemma_clamp_twice(a: int, y: int)
    requires
        a >= 0,
        y >= 0,
    ensures
        clamp_u64(clamp_u64(a) + y) == clamp_u64(a + y),
{
}

pub open spec fn base_rx(acc: Seq<Sample>, k: i64) -> int {
    if ts_map(acc).contains_key(k) { ts_map(acc)[k].rx_bytes as int } else { 0 }
}

pub open spec fn base_tx(acc: Seq<Sample>, k: i64) -> int {
    if ts_map(acc).contains_key(k) { ts_map(acc)[k].tx_bytes as int } else { 0 }
}

proof fn lemma_merge_all_sums(acc: Seq<Sample>, v: Seq<Sample>)
    requires
        ts_increasing(acc),
    ensures
        ts_increasing(merge_all(acc, v)),
        forall|k: i64| #[trigger] ts_map(merge_all(acc, v)).contains_key(k) ==> {
            &&& ts_map(merge_all(acc, v))[k].rx_bytes == clamp_u64(base_rx(acc, k) + rx_at(v, k))
            &&& ts_map(merge_all(acc, v))[k].tx_bytes == clamp_u64(base_tx(acc, k) + tx_at(v, k))
        },
        forall|k: i64| !(#[trigger] ts_map(merge_all(acc, v)).contains_key(k)) ==> !ts_map(acc).contains_key(k)
            && rx_at(v, k) == 0 && tx_at(v, k) == 0,
    decreases v.len(),
{
    if v.len() > 0 {
        let pre = v.drop_last();
        let x = v.last();
        lemma_merge_all_sums(acc, pre);
        let m0 = merge_all(acc, pre);
        let m = merge_all(acc, v);
        assert(m == merge_sample(m0, x));
        lemma_merge_sample_shape(m0, x, i64::MIN, i64::MAX);
        lemma_ts_map_merge(m0, x);
        assert forall|k: i64| #[trigger] ts_map(m).contains_key(k) implies {
            &&& ts_map(m)[k].rx_bytes == clamp_u64(base_rx(acc, k) + rx_at(v, k))
            &&& ts_map(m)[k].tx_bytes == clamp_u64(base_tx(acc, k) + tx_at(v, k))
        } by {
            lemma_at_nonneg(pre, k);
            if k == x.ts && ts_map(m0).contains_key(k) {
                lemma_clamp_twice(base_rx(acc, k) + rx_at(pre, k), x.rx_bytes as int);
                lemma_clamp_twice(base_tx(acc, k) + tx_at(pre, k), x.tx_bytes as int);
            }
        }
    }
}

proof fn lemma_merge_clients_sums(gs: Seq<Seq<Sample>>)
    ensures
        ts_increasing(merge_clients(gs)),
        forall|k: i64| #[trigger] ts_map(merge_clients(gs)).contains_key(k) ==> {
            &&& ts_map(merge_clients(gs))[k].rx_bytes == clamp_u64(rx_total_at(gs, k))
            &&& ts_map(merge_clients(gs))[k].tx_bytes == clamp_u64(tx_total_at(gs, k))
        },
        forall|k: i64| !(#[trigger] ts_map(merge_clients(gs)).contains_key(k)) ==> rx_total_at(gs, k) == 0
            && tx_total_at(gs, k) == 0,
    decreases gs.len(),
{
    if gs.len() == 0 {
        assert(ts_increasing(Seq::<Sample>::empty()));
    } else {
        let pre = gs.drop_last();
        let g = gs.last();
        lemma_merge_clients_sums(pre);
        let r0 = merge_clients(pre);
        lemma_merge_all_sums(r0, g);
        assert forall|k: i64| #[trigger] ts_map(merge_clients(gs)).contains_key(k) implies {
            &&& ts_map(merge_clients(gs))[k].rx_bytes == clamp_u64(rx_total_at(gs, k))
            &&& ts_map(merge_clients(gs))[k].tx_bytes == clamp_u64(tx_total_at(gs, k))
        } by {
            lemma_at_nonneg(g, k);
            lemma_totals_nonneg(pre, k);
            if ts_map(r0).contains_key(k) {
                lemma_clamp_twice(rx_total_at(pre, k), rx_at(g, k));
                lemma_clamp_twice(tx_total_at(pre, k), tx_at(g, k));
            }
        }
    }
}

proof fn lemma_totals_nonneg(gs: Seq<Seq<Sample>>, k: i64)
    ensures
        rx_total_at(gs, k) >= 0,
        tx_total_at(gs, k) >= 0,
    decreases gs.len(),
{
    if gs.len() > 0 {
        lemma_totals_nonneg(gs.drop_last(), k);
        lemma_at_nonneg(gs.last(), k);
    }
}

/// In the all-clients series from memory, each point's download and upload
/// bytes are the saturating sums, over every client, of that client's bytes
/// in the window stamped with the point's timestamp.
pub proof fn lemma_total_series_sums(rec: Recorder, from: i64, to: i64, realtime: bool)
    ensures
        ({
            let r = ram_series_spec(rec, None, from, to, realtime);
            let gs = rec.mac_order().map_values(|m: Seq<char>| window(held(rec, m, realtime), from, to));
            forall|i: int| 0 <= i < r.len() ==> {
                &&& (#[trigger] r[i]).rx_bytes == clamp_u64(rx_total_at(gs, r[i].ts))
                &&& r[i].tx_bytes == clamp_u64(tx_total_at(gs, r[i].ts))
            }
        }),
{
    let r = ram_series_spec(rec, None, from, to, realtime);
    let gs = rec.mac_order().map_values(|m: Seq<char>| window(held(rec, m, realtime), from, to));
    lemma_merge_clients_sums(gs);
    assert forall|i: int| 0 <= i < r.len() implies {
        &&& (#[trigger] r[i]).rx_bytes == clamp_u64(rx_total_at(gs, r[i].ts))
        &&& r[i].tx_bytes == clamp_u64(tx_total_at(gs, r[i].ts))
    } by {
        lemma_ts_map_val(r, i);
    }
}

pub open spec fn max_int(a: int, b: int) -> int {
    if a >= b { a } else { b }
}

/// The largest `f` among the samples of `v` stamped `k` (0 when none is).
pub open spec fn max_at(v: Seq<Sample>, k: i64, f: spec_fn(Sample) -> int) -> int
    decreases v.len(),
{
    if v.len() == 0 {
        0
    } else {
        max_int(max_at(v.drop_last(), k, f), if v.last().ts == k { f(v.last()) } else { 0 })
    }
}

/// The largest `f` among the samples stamped `k` over all the series.
pub open spec fn max_total_at(gs: Seq<Seq<Sample>>, k: i64, f: spec_fn(Sample) -> int) -> int
    decreases gs.len(),
{
    if gs.len() == 0 { 0 } else { max_int(max_total_at(gs.drop_last(), k, f), max_at(gs.last(), k, f)) }
}

proof fn lemma_merge_all_max(acc: Seq<Sample>, v: Seq<Sample>, f: spec_fn(Sample) -> int)
    requires
        ts_increasing(acc),
        forall|a: Sample, x: Sample| #[trigger] f(combine(a, x)) == max_int(f(a), f(x)),
        forall|x: Sample| #[trigger] f(x) >= 0,
    ensures
        forall|k: i64| #[trigger] ts_map(merge_all(acc, v)).contains_key(k) ==> f(ts_map(merge_all(acc, v))[k])
            == max_int(if ts_map(acc).contains_key(k) { f(ts_map(acc)[k]) } else { 0 }, max_at(v, k, f)),
        forall|k: i64| !(#[trigger] ts_map(merge_all(acc, v)).contains_key(k)) ==> !ts_map(acc).contains_key(k)
            && max_at(v, k, f) == 0,
    decreases v.len(),
{
    if v.len() > 0 {
        let pre = v.drop_last();
        let x = v.last();
        lemma_merge_all_max(acc, pre, f);
        lemma_merge_all_sums(acc, pre);
        let m0 = merge_all(acc, pre);
        assert(merge_all(acc, v) == merge_sample(m0, x));
        lemma_ts_map_merge(m0, x);
        assert(f(x) >= 0);
    }
}

proof fn lemma_merge_clients_max(gs: Seq<Seq<Sample>>, f: spec_fn(Sample) -> int)
    requires
        forall|a: Sample, x: Sample| #[trigger] f(combine(a, x)) == max_int(f(a), f(x)),
        forall|x: Sample| #[trigger] f(x) >= 0,
    ensures
        forall|k: i64| #[trigger] ts_map(merge_clients(gs)).contains_key(k) ==> f(ts_map(merge_clients(gs))[k])
            == max_total_at(gs, k, f),
        forall|k: i64| !(#[trigger] ts_map(merge_clients(gs)).contains_key(k)) ==> max_total_at(gs, k, f) == 0,
    decreases gs.len(),
{
    if gs.len() > 0 {
        let pre = gs.drop_last();
        lemma_merge_clients_max(pre, f);
        lemma_merge_clients_sums(pre);
        lemma_merge_all_max(merge_clients(pre), gs.last(), f);
    }
}

/// In the all-clients series from memory, each point's download and upload
/// peaks and connection count are the largest, over every client, of that
/// client's values in the window stamped with the point's timestamp.
pub proof fn lemma_total_series_peaks(rec: Recorder, from: i64, to: i64, realtime: bool)
    ensures
        ({
            let r = ram_series_spec(rec, None, from, to, realtime);
            let gs = rec.mac_order().map_values(|m: Seq<char>| window(held(rec, m, realtime), from, to));
            forall|i: int| 0 <= i < r.len() ==> {
                &&& (#[trigger] r[i]).rx_peak == max_total_at(gs, r[i].ts, |x: Sample| x.rx_peak as int)
                &&& r[i].tx_peak == max_total_at(gs, r[i].ts, |x: Sample| x.tx_peak as int)
                &&& r[i].conns == max_total_at(gs, r[i].ts, |x: Sample| x.conns as int)
            }
        }),
{
    let r = ram_series_spec(rec, None, from, to, realtime);
    let gs = rec.mac_order().map_values(|m: Seq<char>| window(held(rec, m, realtime), from, to));
    let frx = |x: Sample| x.rx_peak as int;
    let ftx = |x: Sample| x.tx_peak as int;
    let fc = |x: Sample| x.conns as int;
    lemma_merge_clients_sums(gs);
    lemma_merge_clients_max(gs, frx);
    lemma_merge_clients_max(gs, ftx);
    lemma_merge_clients_max(gs, fc);
    assert forall|i: int| 0 <= i < r.len() implies {
        &&& (#[trigger] r[i]).rx_peak == max_total_at(gs, r[i].ts, frx)
        &&& r[i].tx_peak == max_total_at(gs, r[i].ts, ftx)
        &&& r[i].conns == max_total_at(gs, r[i].ts, fc)
    } by {
        lemma_ts_map_val(r, i);
        assert(frx(r[i]) == r[i].rx_peak);
    }
}

} // verus!
