use vstd::prelude::*;
use vstd::hash_map::StringHashMap;
use crate::ring::{effective_cap, ring_push, RingBuffer};
use crate::sample::{aggregate, aggregate_spec, clamp_u64, sat_mul, Sample};
use crate::snapshot::ClientView;
use crate::text::str_eq;

verus! {

/// Integer division rounding toward zero, as Rust's `/` does on signed integers.
pub open spec fn trunc_div(x: int, d: int) -> int {
    if x >= 0 { x / d } else { -((-x) / d) }
}

/// The minute that a timestamp in seconds falls in.
pub open spec fn minute_of(now: i64) -> i64 {
    trunc_div(now as int, 60) as i64
}

/// Seconds since the previous tick; 0 on the first tick or when the clock went back.
pub open spec fn interval_of(last: Option<i64>, now: i64) -> u64 {
    match last {
        Some(t) => if now - t > 0 { (now - t) as u64 } else { 0 },
        None => 0,
    }
}

/// The realtime sample a client contributes at a tick: bytes are the rate
/// times the elapsed interval (saturating), peaks are the rates themselves.
pub open spec fn tick_sample(v: ClientView, now: i64, interval: u64) -> Sample {
    Sample {
        ts: now,
        rx_bytes: clamp_u64(v.rx_bps * interval),
        tx_bytes: clamp_u64(v.tx_bps * interval),
        rx_peak: v.rx_bps,
        tx_peak: v.tx_bps,
        conns: (v.conns_tcp + v.conns_udp) as u32,
    }
}

/// The state kept for one client.
pub struct SeriesModel {
    pub realtime: Seq<Sample>,
    pub minutes: Seq<Sample>,
    pub cur_minute: i64,
    pub cur_samples: Seq<Sample>,
}

/// The state of a client seen for the first time during `minute`.
pub open spec fn fresh_series(minute: i64) -> SeriesModel {
    SeriesModel {
        realtime: Seq::empty(),
        minutes: Seq::empty(),
        cur_minute: minute,
        cur_samples: Seq::empty(),
    }
}

/// One tick of one client: the sample enters the realtime ring; when the
/// minute changed and the finished minute holds samples, their aggregate,
/// stamped with the start of that minute, enters the minute ring and is
/// reported.
pub open spec fn series_step(
    s: SeriesModel,
    sample: Sample,
    minute: i64,
    rt_cap: nat,
    min_cap: nat,
) -> (SeriesModel, Option<Sample>) {
    let rt = ring_push(s.realtime, rt_cap, sample);
    if s.cur_minute != minute && s.cur_samples.len() > 0 {
        let agg = aggregate_spec(s.cur_samples, (s.cur_minute * 60) as i64);
        (
            SeriesModel {
                realtime: rt,
                minutes: ring_push(s.minutes, min_cap, agg),
                cur_minute: minute,
                cur_samples: seq![sample],
            },
            Some(agg),
        )
    } else {
        (
            SeriesModel {
                realtime: rt,
                minutes: s.minutes,
                cur_minute: minute,
                cur_samples: s.cur_samples.push(sample),
            },
            None,
        )
    }
}

/// The clients' states after one tick over `views`, in order, and the
/// finalized minute aggregates, in the order they were produced.
pub open spec fn record_views(
    m: Map<Seq<char>, SeriesModel>,
    views: Seq<ClientView>,
    now: i64,
    interval: u64,
    rt_cap: nat,
    min_cap: nat,
) -> (Map<Seq<char>, SeriesModel>, Seq<(Seq<char>, Sample)>)
    decreases views.len(),
{
    if views.len() == 0 {
        (m, Seq::empty())
    } else {
        let (m0, f0) = record_views(m, views.drop_last(), now, interval, rt_cap, min_cap);
        let v = views.last();
        let base = if m0.contains_key(v.mac@) { m0[v.mac@] } else { fresh_series(minute_of(now)) };
        let (s1, e) = series_step(base, tick_sample(v, now, interval), minute_of(now), rt_cap, min_cap);
        (
            m0.insert(v.mac@, s1),
            match e {
                Some(agg) => f0.push((v.mac@, agg)),
                None => f0,
            },
        )
    }
}

struct ClientSeries {
    realtime: RingBuffer<Sample>,
    minutes: RingBuffer<Sample>,
    cur_minute: i64,
    cur_samples: Vec<Sample>,
}

spec fn model(cs: ClientSeries) -> SeriesModel {
    SeriesModel {
        realtime: cs.realtime@,
        minutes: cs.minutes@,
        cur_minute: cs.cur_minute,
        cur_samples: cs.cur_samples@,
    }
}

spec fn build_map(keys: Seq<String>, vals: Seq<ClientSeries>, n: nat) -> Map<Seq<char>, SeriesModel>
    decreases n,
{
    if n == 0 {
        Map::empty()
    } else {
        build_map(keys, vals, (n - 1) as nat).insert(keys[n - 1]@, model(vals[n - 1]))
    }
}

spec fn distinct_keys(keys: Seq<String>) -> bool {
    forall|i: int, j: int| 0 <= i < j < keys.len() ==> keys[i]@ != keys[j]@
}

proof fn lemma_build_map_dom(keys: Seq<String>, vals: Seq<ClientSeries>, n: nat, k: Seq<char>)
    requires
        n <= keys.len(),
    ensures
        build_map(keys, vals, n).contains_key(k) <==> exists|i: int| 0 <= i < n && keys[i]@ == k,
    decreases n,
{
    if n > 0 {
        lemma_build_map_dom(keys, vals, (n - 1) as nat, k);
        if build_map(keys, vals, n).contains_key(k) && keys[n - 1]@ != k {
            let i = choose|i: int| 0 <= i < n - 1 && keys[i]@ == k;
            assert(0 <= i < n && keys[i]@ == k);
        }
    }
}

proof fn lemma_build_map_get(keys: Seq<String>, vals: Seq<ClientSeries>, n: nat, i: int)
    requires
        n <= keys.len(),
        distinct_keys(keys),
        0 <= i < n,
    ensures
        build_map(keys, vals, n).contains_key(keys[i]@),
        build_map(keys, vals, n)[keys[i]@] == model(vals[i]),
    decreases n,
{
    if i < n - 1 {
        lemma_build_map_get(keys, vals, (n - 1) as nat, i);
    }
}

proof fn lemma_build_map_update(
    keys: Seq<String>,
    vals: Seq<ClientSeries>,
    n: nat,
    i: int,
    x: ClientSeries,
)
    requires
        n <= keys.len(),
        n <= vals.len(),
        distinct_keys(keys),
        0 <= i < n,
    ensures
        build_map(keys, vals.update(i, x), n) == build_map(keys, vals, n).insert(keys[i]@, model(x)),
    decreases n,
{
    if i < n - 1 {
        lemma_build_map_update(keys, vals, (n - 1) as nat, i, x);
        assert(build_map(keys, vals.update(i, x), n) =~= build_map(keys, vals, n).insert(
            keys[i]@,
            model(x),
        ));
    } else {
        assert(build_map(keys, vals.update(i, x), (n - 1) as nat) == build_map(keys, vals, (n - 1) as nat))
            by {
            lemma_build_map_prefix(keys, vals, vals.update(i, x), (n - 1) as nat);
        }
        assert(build_map(keys, vals.update(i, x), n) =~= build_map(keys, vals, n).insert(
            keys[i]@,
            model(x),
        ));
    }
}

proof fn lemma_build_map_prefix(keys: Seq<String>, a: Seq<ClientSeries>, b: Seq<ClientSeries>, n: nat)
    requires
        n <= a.len(),
        n <= b.len(),
        forall|j: int| 0 <= j < n ==> a[j] == b[j],
    ensures
        build_map(keys, a, n) == build_map(keys, b, n),
    decreases n,
{
    if n > 0 {
        lemma_build_map_prefix(keys, a, b, (n - 1) as nat);
    }
}

proof fn lemma_build_map_keys_prefix(ka: Seq<String>, kb: Seq<String>, vals: Seq<ClientSeries>, n: nat)
    requires
        n <= ka.len(),
        n <= kb.len(),
        forall|j: int| 0 <= j < n ==> ka[j] == kb[j],
    ensures
        build_map(ka, vals, n) == build_map(kb, vals, n),
    decreases n,
{
    if n > 0 {
        lemma_build_map_keys_prefix(ka, kb, vals, (n - 1) as nat);
    }
}

/// The realtime samples a client has in `m`, or none for an unknown client.
pub open spec fn held_realtime(m: Map<Seq<char>, SeriesModel>, mac: Seq<char>) -> Seq<Sample> {
    if m.contains_key(mac) { m[mac].realtime } else { Seq::empty() }
}

/// Whether some view carries the MAC `k`.
pub open spec fn some_view_has(views: Seq<ClientView>, k: Seq<char>) -> bool {
    exists|i: int| 0 <= i < views.len() && (#[trigger] views[i]).mac@ == k
}

/// One tick over views of distinct clients: the known clients are the old
/// ones and those of the views; a client without a view keeps its state; and
/// each view's client gets that view's sample pushed onto its realtime
/// series (which keeps the newest samples up to the capacity).
pub proof fn lemma_record_per_client(
    m: Map<Seq<char>, SeriesModel>,
    views: Seq<ClientView>,
    now: i64,
    interval: u64,
    rt_cap: nat,
    min_cap: nat,
)
    requires
        forall|i: int, j: int| 0 <= i < j < views.len() ==> views[i].mac@ != views[j].mac@,
    ensures
        ({
            let m2 = record_views(m, views, now, interval, rt_cap, min_cap).0;
            &&& forall|k: Seq<char>| #[trigger] m2.contains_key(k) <==> (m.contains_key(k) || some_view_has(views, k))
            &&& forall|k: Seq<char>| m.contains_key(k) && !some_view_has(views, k) ==> #[trigger] m2[k] == m[k]
            &&& forall|i: int| 0 <= i < views.len() ==> #[trigger] m2[views[i].mac@].realtime == ring_push(
                held_realtime(m, views[i].mac@),
                rt_cap,
                tick_sample(views[i], now, interval),
            )
        }),
    decreases views.len(),
{
    if views.len() > 0 {
        let pre = views.drop_last();
        let v = views.last();
        lemma_record_per_client(m, pre, now, interval, rt_cap, min_cap);
        let m0 = record_views(m, pre, now, interval, rt_cap, min_cap).0;
        let m2 = record_views(m, views, now, interval, rt_cap, min_cap).0;
        assert(!some_view_has(pre, v.mac@)) by {
            if some_view_has(pre, v.mac@) {
                let i = choose|i: int| 0 <= i < pre.len() && (#[trigger] pre[i]).mac@ == v.mac@;
                assert(views[i] == pre[i]);
                assert(views[views.len() - 1] == v);
            }
        }
        assert forall|k: Seq<char>| #[trigger] m2.contains_key(k) <==> (m.contains_key(k) || some_view_has(views, k)) by {
            if some_view_has(pre, k) {
                let i = choose|i: int| 0 <= i < pre.len() && (#[trigger] pre[i]).mac@ == k;
                assert(views[i] == pre[i]);
            }
            if k == v.mac@ {
                assert(views[views.len() - 1] == v);
            }
            if some_view_has(views, k) && k != v.mac@ {
                let i = choose|i: int| 0 <= i < views.len() && (#[trigger] views[i]).mac@ == k;
                assert(i < views.len() - 1);
                assert(pre[i] == views[i]);
            }
        }
        assert forall|k: Seq<char>| m.contains_key(k) && !some_view_has(views, k) implies #[trigger] m2[k] == m[k] by {
            assert(views[views.len() - 1] == v);
            if some_view_has(pre, k) {
                let i = choose|i: int| 0 <= i < pre.len() && (#[trigger] pre[i]).mac@ == k;
                assert(views[i] == pre[i]);
            }
        }
        assert forall|i: int| 0 <= i < views.len() implies #[trigger] m2[views[i].mac@].realtime == ring_push(
            held_realtime(m, views[i].mac@),
            rt_cap,
            tick_sample(views[i], now, interval),
        ) by {
            if i < views.len() - 1 {
                assert(views[i] == pre[i]);
                assert(views[i].mac@ != v.mac@);
            } else {
                assert(views[i] == v);
            }
        }
    }
}

/// Keeps, per client, a ring of realtime samples and a ring of per-minute
/// aggregates, and finalizes each minute when the first tick of a later
/// minute arrives.
pub struct Recorder {
    realtime_cap: usize,
    minute_cap: usize,
    keys: Vec<String>,
    vals: Vec<ClientSeries>,
    index: StringHashMap<usize>,
    last_ts: Option<i64>,
}

impl Recorder {
    /// The recorder's internal invariant.
    pub closed spec fn wf(self) -> bool {
        &&& self.keys@.len() == self.vals@.len()
        &&& distinct_keys(self.keys@)
        &&& forall|k: Seq<char>| #[trigger] self.index@.contains_key(k) ==> self.index@[k] < self.keys@.len()
            && self.keys@[self.index@[k] as int]@ == k
        &&& forall|i: int| 0 <= i < self.keys@.len() ==> self.index@.contains_key(#[trigger] self.keys@[i]@)
        &&& forall|i: int|
            0 <= i < self.vals@.len() ==> {
                let cs = #[trigger] self.vals@[i];
                &&& cs.realtime.wf()
                &&& cs.minutes.wf()
                &&& cs.realtime.capacity() == effective_cap(self.realtime_cap)
                &&& cs.minutes.capacity() == effective_cap(self.minute_cap)
                &&& -153722867280912930 <= cs.cur_minute <= 153722867280912930
            }
    }

    /// Each known client's state, by MAC.
    pub closed spec fn series(self) -> Map<Seq<char>, SeriesModel> {
        build_map(self.keys@, self.vals@, self.keys@.len())
    }

    /// The known clients' MACs in the order first seen.
    pub closed spec fn mac_order(self) -> Seq<Seq<char>> {
        self.keys@.map_values(|k: String| k@)
    }

    /// The timestamp of the previous tick, if any.
    pub closed spec fn last_tick(self) -> Option<i64> {
        self.last_ts
    }

    /// How many realtime samples each client keeps.
    pub closed spec fn realtime_capacity(self) -> nat {
        effective_cap(self.realtime_cap)
    }

    /// How many minute aggregates each client keeps.
    pub closed spec fn minute_capacity(self) -> nat {
        effective_cap(self.minute_cap)
    }

    /// The timestamp of the previous tick, if any.
    pub fn last_tick_ts(&self) -> (r: Option<i64>)
        ensures
            r == self.last_tick(),
    {
        self.last_ts
    }

    /// Whatever happened before, every client's realtime series holds at most
    /// the realtime capacity and its minute series at most the minute capacity.
    pub proof fn lemma_series_bounded(&self)
        requires
            self.wf(),
        ensures
            forall|mac: Seq<char>| #[trigger] self.series().contains_key(mac) ==> {
                &&& self.series()[mac].realtime.len() <= self.realtime_capacity()
                &&& self.series()[mac].minutes.len() <= self.minute_capacity()
            },
    {
        assert forall|mac: Seq<char>| #[trigger] self.series().contains_key(mac) implies {
            &&& self.series()[mac].realtime.len() <= self.realtime_capacity()
            &&& self.series()[mac].minutes.len() <= self.minute_capacity()
        } by {
            lemma_build_map_dom(self.keys@, self.vals@, self.keys@.len(), mac);
            let i = choose|i: int| 0 <= i < self.keys@.len() && self.keys@[i]@ == mac;
            lemma_build_map_get(self.keys@, self.vals@, self.keys@.len(), i);
            let cs = self.vals@[i];
            cs.realtime.lemma_within_capacity();
            cs.minutes.lemma_within_capacity();
        }
    }

    pub fn new(realtime_cap: usize, minute_cap: usize) -> (r: Self)
        ensures
            r.wf(),
            r.series() == Map::<Seq<char>, SeriesModel>::empty(),
            r.last_tick() == None::<i64>,
            r.realtime_capacity() == effective_cap(realtime_cap),
            r.minute_capacity() == effective_cap(minute_cap),
    {
        let r = Recorder {
            realtime_cap,
            minute_cap,
            keys: Vec::new(),
            vals: Vec::new(),
            index: StringHashMap::new(),
            last_ts: None,
        };
        assert(r.series() =~= Map::<Seq<char>, SeriesModel>::empty());
        r
    }

    /// Records one tick: every view contributes a realtime sample, and minute
    /// aggregates finished by this tick are returned with their client's MAC.
    pub fn record(&mut self, views: &[ClientView], now: i64) -> (finalized: Vec<(String, Sample)>)
        requires
            old(self).wf(),
            forall|i: int| 0 <= i < views@.len() ==> #[trigger] views@[i].conns_tcp + views@[i].conns_udp <= u32::MAX,
            old(self).last_tick() matches Some(t) ==> i64::MIN <= now - t <= i64::MAX,
        ensures
            final(self).wf(),
            final(self).last_tick() == Some(now),
            final(self).realtime_capacity() == old(self).realtime_capacity(),
            final(self).minute_capacity() == old(self).minute_capacity(),
            ({
                let (m, f) = record_views(
                    old(self).series(),
                    views@,
                    now,
                    interval_of(old(self).last_tick(), now),
                    old(self).realtime_capacity(),
                    old(self).minute_capacity(),
                );
                &&& final(self).series() == m
                &&& finalized@.map_values(|p: (String, Sample)| (p.0@, p.1)) == f
            }),
    {
        let interval: u64 = match self.last_ts {
            Some(t) => {
                let d = now - t;
                if d > 0 { d as u64 } else { 0 }
            },
            None => 0,
        };
        let minute = now / 60;
        let ghost rt_cap = self.realtime_capacity();
        let ghost min_cap = self.minute_capacity();
        let ghost m_start = self.series();
        let mut finalized: Vec<(String, Sample)> = Vec::new();
        let mut vi: usize = 0;
        while vi < views.len()
            invariant
                self.wf(),
                vi <= views@.len(),
                forall|i: int| 0 <= i < views@.len() ==> #[trigger] views@[i].conns_tcp + views@[i].conns_udp <= u32::MAX,
                interval == interval_of(old(self).last_tick(), now),
                minute == minute_of(now),
                rt_cap == self.realtime_capacity(),
                min_cap == self.minute_capacity(),
                rt_cap == old(self).realtime_capacity(),
                min_cap == old(self).minute_capacity(),
                m_start == old(self).series(),
                self.last_ts == old(self).last_ts,
                ({
                    let (m, f) = record_views(m_start, views@.subrange(0, vi as int), now, interval, rt_cap, min_cap);
                    &&& self.series() == m
                    &&& finalized@.map_values(|p: (String, Sample)| (p.0@, p.1)) == f
                }),
            decreases views@.len() - vi,
        {
            let v = &views[vi];
            let sample = Sample {
                ts: now,
                rx_bytes: sat_mul(v.rx_bps, interval),
                tx_bytes: sat_mul(v.tx_bps, interval),
                rx_peak: v.rx_bps,
                tx_peak: v.tx_bps,
                conns: v.conns_tcp + v.conns_udp,
            };
            assert(sample == tick_sample(*v, now, interval));
            let ghost pre = views@.subrange(0, vi as int);
            let ghost post = views@.subrange(0, vi + 1);
            assert(post.drop_last() =~= pre);
            assert(post.last() == *v);
            let ghost m0 = self.series();
            let ghost f0 = finalized@.map_values(|p: (String, Sample)| (p.0@, p.1));
            // Find the client's entry, or create it.
            let n = self.keys.len();
            let idx: usize = match self.index.get(v.mac.as_str()) {
                Some(i) => *i,
                None => n,
            };
            proof {
                if idx == n {
                    assert forall|j: int| 0 <= j < idx implies self.keys@[j]@ != v.mac@ by {
                        assert(self.index@.contains_key(self.keys@[j]@));
                    }
                }
            }
            if idx == n {
                proof {
                    lemma_build_map_dom(self.keys@, self.vals@, n as nat, v.mac@);
                }
                let fresh = ClientSeries {
                    realtime: RingBuffer::new(self.realtime_cap),
                    minutes: RingBuffer::new(self.minute_cap),
                    cur_minute: minute,
                    cur_samples: Vec::new(),
                };
                assert(model(fresh) == fresh_series(minute_of(now)));
                let ghost old_keys = self.keys@;
                let ghost old_vals = self.vals@;
                self.keys.push(v.mac.clone());
                self.vals.push(fresh);
                self.index.insert(v.mac.clone(), n);
                proof {
                    assert forall|i: int| 0 <= i < self.keys@.len() implies self.index@.contains_key(
                        #[trigger] self.keys@[i]@,
                    ) by {
                        if i < n {
                            assert(self.keys@[i] == old_keys[i]);
                        }
                    }
                }
                proof {
                    lemma_build_map_prefix(self.keys@, old_vals, self.vals@, n as nat);
                    lemma_build_map_keys_prefix(old_keys, self.keys@, old_vals, n as nat);
                    assert(self.series() == m0.insert(v.mac@, fresh_series(minute_of(now))));
                }
            } else {
                proof {
                    lemma_build_map_get(self.keys@, self.vals@, n as nat, idx as int);
                }
            }
            let ghost base = if m0.contains_key(v.mac@) { m0[v.mac@] } else { fresh_series(minute_of(now)) };
            assert(self.keys@[idx as int]@ == v.mac@);
            proof {
                lemma_build_map_get(self.keys@, self.vals@, self.keys@.len(), idx as int);
            }
            assert(model(self.vals@[idx as int]) == base);
            let ghost vals_before = self.vals@;
            let ghost keys_now = self.keys@;
            let ghost c0 = self.vals@[idx as int];
            assert(-153722867280912930 <= c0.cur_minute <= 153722867280912930);
            assert(c0.realtime.wf() && c0.minutes.wf());
            let mut cs = self.vals.remove(idx);
            assert(model(cs) == base);
            cs.realtime.push(sample);
            let mut emitted: Option<Sample> = None;
            if cs.cur_minute != minute && cs.cur_samples.len() > 0 {
                let bucket_ts = cs.cur_minute * 60;
                let agg = aggregate(cs.cur_samples.as_slice(), bucket_ts);
                cs.minutes.push(agg);
                finalized.push((v.mac.clone(), agg));
                emitted = Some(agg);
                cs.cur_samples.clear();
            }
            cs.cur_minute = minute;
            cs.cur_samples.push(sample);
            proof {
                let (s1, e) = series_step(base, sample, minute_of(now), rt_cap, min_cap);
                assert(model(cs).realtime == s1.realtime);
                assert(model(cs).minutes == s1.minutes);
                assert(model(cs).cur_samples =~= s1.cur_samples);
                assert(model(cs) == s1);
                assert(emitted == e);
            }
            self.vals.insert(idx, cs);
            proof {
                assert(self.vals@ =~= vals_before.update(idx as int, cs));
                lemma_build_map_update(keys_now, vals_before, keys_now.len(), idx as int, cs);
                let f_new = finalized@.map_values(|p: (String, Sample)| (p.0@, p.1));
                match emitted {
                    Some(agg) => {
                        assert(f_new =~= f0.push((v.mac@, agg)));
                    },
                    None => {
                        assert(f_new =~= f0);
                    },
                }
                assert forall|i: int| 0 <= i < self.vals@.len() implies {
                    let c = #[trigger] self.vals@[i];
                    &&& c.realtime.wf()
                    &&& c.minutes.wf()
                    &&& c.realtime.capacity() == effective_cap(self.realtime_cap)
                    &&& c.minutes.capacity() == effective_cap(self.minute_cap)
                    &&& -153722867280912930 <= c.cur_minute <= 153722867280912930
                } by {
                    if i != idx {
                        assert(self.vals@[i] == vals_before[i]);
                    }
                }
            }
            vi = vi + 1;
        }
        assert(views@.subrange(0, views@.len() as int) =~= views@);
        self.last_ts = Some(now);
        finalized
    }

    fn find(&self, mac: &str) -> (r: Option<usize>)
        requires
            self.wf(),
        ensures
            match r {
                Some(i) => i < self.keys@.len() && self.keys@[i as int]@ == mac@,
                None => !self.series().contains_key(mac@),
            },
    {
        match self.index.get(mac) {
            Some(i) => Some(*i),
            None => {
                proof {
                    lemma_build_map_dom(self.keys@, self.vals@, self.keys@.len(), mac@);
                    if exists|j: int| 0 <= j < self.keys@.len() && self.keys@[j]@ == mac@ {
                        let j = choose|j: int| 0 <= j < self.keys@.len() && self.keys@[j]@ == mac@;
                        assert(self.index@.contains_key(self.keys@[j]@));
                    }
                }
                None
            },
        }
    }

    /// The client's realtime samples, oldest first; empty for an unknown client.
    pub fn realtime(&self, mac: &str) -> (r: Vec<Sample>)
        requires
            self.wf(),
        ensures
            r@ == (if self.series().contains_key(mac@) {
                self.series()[mac@].realtime
            } else {
                Seq::<Sample>::empty()
            }),
    {
        match self.find(mac) {
            Some(i) => {
                proof {
                    lemma_build_map_get(self.keys@, self.vals@, self.keys@.len(), i as int);
                }
                copy_out(&self.vals[i].realtime)
            },
            None => Vec::new(),
        }
    }

    /// The client's minute aggregates, oldest first; empty for an unknown client.
    pub fn minutes(&self, mac: &str) -> (r: Vec<Sample>)
        requires
            self.wf(),
        ensures
            r@ == (if self.series().contains_key(mac@) {
                self.series()[mac@].minutes
            } else {
                Seq::<Sample>::empty()
            }),
    {
        match self.find(mac) {
            Some(i) => {
                proof {
                    lemma_build_map_get(self.keys@, self.vals@, self.keys@.len(), i as int);
                }
                copy_out(&self.vals[i].minutes)
            },
            None => Vec::new(),
        }
    }

    /// The MACs of all known clients, each once, in the order first seen.
    pub fn macs(&self) -> (r: Vec<String>)
        requires
            self.wf(),
        ensures
            forall|i: int| 0 <= i < r@.len() ==> self.series().contains_key(#[trigger] r@[i]@),
            forall|k: Seq<char>| self.series().contains_key(k) ==> exists|i: int| 0 <= i < r@.len() && #[trigger] r@[i]@ == k,
            forall|i: int, j: int| 0 <= i < j < r@.len() ==> r@[i]@ != r@[j]@,
            r@.map_values(|k: String| k@) == self.mac_order(),
    {
        let r = self.keys.clone();
        proof {
            assert forall|i: int| 0 <= i < r@.len() implies self.series().contains_key(#[trigger] r@[i]@) by {
                lemma_build_map_get(self.keys@, self.vals@, self.keys@.len(), i);
            }
            assert forall|k: Seq<char>| self.series().contains_key(k) implies exists|i: int| 0 <= i < r@.len() && #[trigger] r@[i]@ == k by {
                lemma_build_map_dom(self.keys@, self.vals@, self.keys@.len(), k);
            }
        }
        r
    }
}

/// The samples of a ring, oldest first.
fn copy_out(ring: &RingBuffer<Sample>) -> (r: Vec<Sample>)
    requires
        ring.wf(),
    ensures
        r@ == ring@,
{
    let refs = ring.iter();
    let mut out: Vec<Sample> = Vec::new();
    let mut k: usize = 0;
    while k < refs.len()
        invariant
            refs@.len() == ring@.len(),
            forall|i: int| 0 <= i < refs@.len() ==> *#[trigger] refs@[i] == ring@[i],
            k <= refs@.len(),
            out@ =~= ring@.subrange(0, k as int),
        decreases refs@.len() - k,
    {
        out.push(*refs[k]);
        k = k + 1;
    }
    out
}

} // verus!
