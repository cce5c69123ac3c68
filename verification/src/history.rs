use vstd::prelude::*;
use crate::db::{Store, StoreError, Tier};
use crate::downsample::{lttb, lttb_spec};
use crate::recorder::Recorder;
use crate::sample::Sample;
use crate::tsmerge::merge_windows;

verus! {

/// The resolution of a history request.
#[derive(Debug, Clone, Copy, PartialEq, Eq, Structural)]
pub enum HistTier {
    Realtime,
    Day,
    Week,
    Month,
}

/// Whether a sample's timestamp lies in `[from, to]`.
pub open spec fn in_window(s: Sample, from: i64, to: i64) -> bool {
    from <= s.ts && s.ts <= to
}

/// The samples whose timestamps lie in `[from, to]`, in their order.
pub open spec fn window(v: Seq<Sample>, from: i64, to: i64) -> Seq<Sample> {
    v.filter(|s: Sample| from <= s.ts && s.ts <= to)
}

pub open spec fn sat_add(a: u64, b: u64) -> u64 {
    if a + b > u64::MAX { u64::MAX } else { (a + b) as u64 }
}

pub open spec fn max_u64(a: u64, b: u64) -> u64 {
    if a >= b { a } else { b }
}

pub open spec fn max_u32(a: u32, b: u32) -> u32 {
    if a >= b { a } else { b }
}

/// Two samples of one timestamp merged: byte counts added (saturating),
/// peaks and connection counts the larger of the two.
pub open spec fn combine(a: Sample, s: Sample) -> Sample {
    Sample {
        ts: a.ts,
        rx_bytes: sat_add(a.rx_bytes, s.rx_bytes),
        tx_bytes: sat_add(a.tx_bytes, s.tx_bytes),
        rx_peak: max_u64(a.rx_peak, s.rx_peak),
        tx_peak: max_u64(a.tx_peak, s.tx_peak),
        conns: max_u32(a.conns, s.conns),
    }
}

/// `s` put into a series ordered by timestamp: merged into the point of its
/// timestamp, or inserted before the first later point.
pub open spec fn merge_sample(acc: Seq<Sample>, s: Sample) -> Seq<Sample>
    decreases acc.len(),
{
    if acc.len() == 0 {
        seq![s]
    } else if acc[0].ts == s.ts {
        seq![combine(acc[0], s)] + acc.drop_first()
    } else if acc[0].ts > s.ts {
        seq![s] + acc
    } else {
        seq![acc[0]] + merge_sample(acc.drop_first(), s)
    }
}

/// All of `v` merged into `acc`, first to last.
pub open spec fn merge_all(acc: Seq<Sample>, v: Seq<Sample>) -> Seq<Sample>
    decreases v.len(),
{
    if v.len() == 0 {
        acc
    } else {
        merge_sample(merge_all(acc, v.drop_last()), v.last())
    }
}

/// The series of several clients merged into one series per timestamp.
pub open spec fn merge_clients(groups: Seq<Seq<Sample>>) -> Seq<Sample>
    decreases groups.len(),
{
    if groups.len() == 0 {
        Seq::empty()
    } else {
        merge_all(merge_clients(groups.drop_last()), groups.last())
    }
}

/// The realtime or the minute series that the recorder holds for `mac`.
pub open spec fn held(rec: Recorder, mac: Seq<char>, realtime: bool) -> Seq<Sample> {
    if rec.series().contains_key(mac) {
        if realtime { rec.series()[mac].realtime } else { rec.series()[mac].minutes }
    } else {
        Seq::empty()
    }
}

/// A series from memory: one client's samples in `[from, to]`, or, without a
/// client, the samples of all clients in `[from, to]` merged per timestamp in
/// timestamp order.
pub open spec fn ram_series_spec(rec: Recorder, mac: Option<Seq<char>>, from: i64, to: i64, realtime: bool) -> Seq<Sample> {
    match mac {
        Some(m) => window(held(rec, m, realtime), from, to),
        None => merge_clients(rec.mac_order().map_values(|m: Seq<char>| window(held(rec, m, realtime), from, to))),
    }
}

pub open spec fn mac_key(mac: Option<&str>) -> Option<Seq<char>> {
    match mac {
        Some(m) => Some(m@),
        None => None,
    }
}

/// Whether the timestamps strictly increase along the series.
pub open spec fn ts_increasing(v: Seq<Sample>) -> bool {
    forall|i: int, j: int| 0 <= i < j < v.len() ==> v[i].ts < v[j].ts
}

/// Whether every timestamp of the series lies in `[from, to]`.
pub open spec fn all_in_window(v: Seq<Sample>, from: i64, to: i64) -> bool {
    forall|i: int| 0 <= i < v.len() ==> from <= #[trigger] v[i].ts && v[i].ts <= to
}

pub(crate) proof fn lemma_merge_sample_shape(acc: Seq<Sample>, s: Sample, from: i64, to: i64)
    requires
        ts_increasing(acc),
    ensures
        ts_increasing(merge_sample(acc, s)),
        merge_sample(acc, s).len() > 0,
        merge_sample(acc, s)[0].ts == (if acc.len() > 0 && acc[0].ts < s.ts { acc[0].ts } else { s.ts }),
        all_in_window(acc, from, to) && in_window(s, from, to) ==> all_in_window(merge_sample(acc, s), from, to),
    decreases acc.len(),
{
    if acc.len() == 0 {
    } else if acc[0].ts == s.ts {
        let r = merge_sample(acc, s);
        assert forall|i: int, j: int| 0 <= i < j < r.len() implies r[i].ts < r[j].ts by {
            if i > 0 {
                assert(r[i] == acc[i]);
            }
            assert(r[j] == acc[j]);
        }
        assert forall|i: int| 0 <= i < r.len() && all_in_window(acc, from, to) implies from <= #[trigger] r[i].ts
            && r[i].ts <= to by {
            if i > 0 {
                assert(r[i] == acc[i]);
            } else {
                assert(acc[0].ts == r[0].ts);
            }
        }
    } else if acc[0].ts > s.ts {
        let r = merge_sample(acc, s);
        assert forall|i: int, j: int| 0 <= i < j < r.len() implies r[i].ts < r[j].ts by {
            assert(r[j] == acc[j - 1]);
            if i > 0 {
                assert(r[i] == acc[i - 1]);
            }
        }
        assert forall|i: int| 0 <= i < r.len() && all_in_window(acc, from, to) && in_window(s, from, to) implies from
            <= #[trigger] r[i].ts && r[i].ts <= to by {
            if i > 0 {
                assert(r[i] == acc[i - 1]);
            }
        }
    } else {
        let rest = acc.drop_first();
        assert(ts_increasing(rest)) by {
            assert forall|i: int, j: int| 0 <= i < j < rest.len() implies rest[i].ts < rest[j].ts by {
                assert(rest[i] == acc[i + 1]);
                assert(rest[j] == acc[j + 1]);
            }
        }
        lemma_merge_sample_shape(rest, s, from, to);
        let m = merge_sample(rest, s);
        let r = merge_sample(acc, s);
        assert(r == seq![acc[0]] + m);
        assert(m[0].ts > acc[0].ts) by {
            if rest.len() > 0 {
                assert(rest[0] == acc[1]);
            }
        }
        assert forall|i: int, j: int| 0 <= i < j < r.len() implies r[i].ts < r[j].ts by {
            assert(r[j] == m[j - 1]);
            if i > 0 {
                assert(r[i] == m[i - 1]);
            } else {
                if j - 1 > 0 {
                    assert(m[0].ts < m[j - 1].ts);
                }
            }
        }
        assert(all_in_window(acc, from, to) ==> all_in_window(rest, from, to)) by {
            if all_in_window(acc, from, to) {
                assert forall|i: int| 0 <= i < rest.len() implies from <= #[trigger] rest[i].ts && rest[i].ts <= to by {
                    assert(rest[i] == acc[i + 1]);
                }
            }
        }
        assert forall|i: int| 0 <= i < r.len() && all_in_window(acc, from, to) && in_window(s, from, to) implies from
            <= #[trigger] r[i].ts && r[i].ts <= to by {
            if i > 0 {
                assert(r[i] == m[i - 1]);
            }
        }
    }
}

proof fn lemma_merge_all_shape(acc: Seq<Sample>, v: Seq<Sample>, from: i64, to: i64)
    requires
        ts_increasing(acc),
        all_in_window(acc, from, to),
        all_in_window(v, from, to),
    ensures
        ts_increasing(merge_all(acc, v)),
        all_in_window(merge_all(acc, v), from, to),
    decreases v.len(),
{
    if v.len() > 0 {
        assert(all_in_window(v.drop_last(), from, to)) by {
            assert forall|i: int| 0 <= i < v.drop_last().len() implies from <= #[trigger] v.drop_last()[i].ts
                && v.drop_last()[i].ts <= to by {
                assert(v.drop_last()[i] == v[i]);
            }
        }
        lemma_merge_all_shape(acc, v.drop_last(), from, to);
        assert(in_window(v.last(), from, to)) by {
            assert(v.last() == v[v.len() - 1]);
        }
        lemma_merge_sample_shape(merge_all(acc, v.drop_last()), v.last(), from, to);
    }
}

proof fn lemma_window_in_range(v: Seq<Sample>, from: i64, to: i64)
    ensures
        all_in_window(window(v, from, to), from, to),
{
    let w = window(v, from, to);
    broadcast use vstd::seq_lib::group_filter_ensures;
    assert forall|i: int| 0 <= i < w.len() implies from <= #[trigger] w[i].ts && w[i].ts <= to by {
        assert((|s: Sample| from <= s.ts && s.ts <= to)(w[i]));
    }
}

proof fn lemma_merge_clients_shape(groups: Seq<Seq<Sample>>, from: i64, to: i64)
    requires
        forall|i: int| 0 <= i < groups.len() ==> all_in_window(#[trigger] groups[i], from, to),
    ensures
        ts_increasing(merge_clients(groups)),
        all_in_window(merge_clients(groups), from, to),
    decreases groups.len(),
{
    if groups.len() > 0 {
        let g = groups.drop_last();
        assert forall|i: int| 0 <= i < g.len() implies all_in_window(#[trigger] g[i], from, to) by {
            assert(g[i] == groups[i]);
        }
        lemma_merge_clients_shape(g, from, to);
        assert(all_in_window(groups.last(), from, to)) by {
            assert(groups.last() == groups[groups.len() - 1]);
        }
        lemma_merge_all_shape(merge_clients(g), groups.last(), from, to);
    }
}

/// A series from memory lies in the requested window; merged across all
/// clients, it holds one point per timestamp, in increasing timestamp order.
pub proof fn lemma_ram_series_shape(rec: Recorder, from: i64, to: i64, realtime: bool)
    ensures
        ts_increasing(ram_series_spec(rec, None, from, to, realtime)),
        all_in_window(ram_series_spec(rec, None, from, to, realtime), from, to),
        forall|m: Seq<char>| all_in_window(#[trigger] ram_series_spec(rec, Some(m), from, to, realtime), from, to),
{
    let groups = rec.mac_order().map_values(|m: Seq<char>| window(held(rec, m, realtime), from, to));
    assert forall|i: int| 0 <= i < groups.len() implies all_in_window(#[trigger] groups[i], from, to) by {
        lemma_window_in_range(held(rec, rec.mac_order()[i], realtime), from, to);
    }
    lemma_merge_clients_shape(groups, from, to);
    assert forall|m: Seq<char>| all_in_window(#[trigger] ram_series_spec(rec, Some(m), from, to, realtime), from, to) by {
        lemma_window_in_range(held(rec, m, realtime), from, to);
    }
}

/// The samples of `v` whose timestamps lie in `[from, to]`.
fn window_exec(v: &Vec<Sample>, from: i64, to: i64) -> (r: Vec<Sample>)
    ensures
        r@ == window(v@, from, to),
{
    let mut out: Vec<Sample> = Vec::new();
    let mut k: usize = 0;
    assert(v@.subrange(0, 0) =~= Seq::<Sample>::empty());
    while k < v.len()
        invariant
            k <= v@.len(),
            out@ == window(v@.subrange(0, k as int), from, to),
        decreases v@.len() - k,
    {
        assert(v@.subrange(0, k + 1).drop_last() =~= v@.subrange(0, k as int));
        assert(v@.subrange(0, k + 1).last() == v@[k as int]);
        let ghost pre = v@.subrange(0, k + 1);
        assert(window(pre, from, to) == (if from <= pre.last().ts && pre.last().ts <= to {
            window(pre.drop_last(), from, to).push(pre.last())
        } else {
            window(pre.drop_last(), from, to)
        })) by {
            reveal(Seq::filter);
        }
        if from <= v[k].ts && v[k].ts <= to {
            out.push(v[k]);
        }
        k = k + 1;
    }
    assert(v@.subrange(0, v@.len() as int) =~= v@);
    out
}

pub(crate) fn combine_exec(a: Sample, s: Sample) -> (r: Sample)
    ensures
        r == combine(a, s),
{
    Sample {
        ts: a.ts,
        rx_bytes: a.rx_bytes.saturating_add(s.rx_bytes),
        tx_bytes: a.tx_bytes.saturating_add(s.tx_bytes),
        rx_peak: if a.rx_peak >= s.rx_peak { a.rx_peak } else { s.rx_peak },
        tx_peak: if a.tx_peak >= s.tx_peak { a.tx_peak } else { s.tx_peak },
        conns: if a.conns >= s.conns { a.conns } else { s.conns },
    }
}

/// What the store is asked for a stored series: a table, a client (all
/// clients when `None`) and an inclusive time window.
#[derive(Debug, Clone, Copy, PartialEq, Eq)]
pub struct StoreQuery<'b> {
    pub tier: Tier,
    pub mac: Option<&'b str>,
    pub from: i64,
    pub to: i64,
}

/// Where a tier's series comes from: week series from the hour table and
/// month series from the day table, for the same client and window; realtime
/// and day series come from memory (`None`).
pub open spec fn source_spec<'b>(tier: HistTier, mac: Option<&'b str>, from: i64, to: i64) -> Option<StoreQuery<'b>> {
    match tier {
        HistTier::Week => Some(StoreQuery { tier: Tier::Hour, mac, from, to }),
        HistTier::Month => Some(StoreQuery { tier: Tier::Day, mac, from, to }),
        _ => None,
    }
}

/// The store query behind a tier, as `source_spec` says.
pub fn series_source<'b>(tier: HistTier, mac: Option<&'b str>, from: i64, to: i64) -> (r: Option<StoreQuery<'b>>)
    ensures
        r == source_spec(tier, mac, from, to),
{
    match tier {
        HistTier::Week => Some(StoreQuery { tier: Tier::Hour, mac, from, to }),
        HistTier::Month => Some(StoreQuery { tier: Tier::Day, mac, from, to }),
        _ => None,
    }
}

/// The samples a store answered, or none when it failed.
pub open spec fn stored_or_empty(r: Result<Vec<Sample>, StoreError>) -> Seq<Sample> {
    match r {
        Ok(v) => v@,
        Err(_) => Seq::empty(),
    }
}

/// A stored series downsampled to at most `max_points` points; a failed
/// query counts as an empty series.
pub fn finish_series(r: Result<Vec<Sample>, StoreError>, max_points: usize) -> (out: Vec<Sample>)
    ensures
        out@ == lttb_spec(stored_or_empty(r), max_points as int),
{
    match r {
        Ok(v) => lttb(v.as_slice(), max_points),
        Err(_) => lttb(&[], max_points),
    }
}

/// Answers history requests from the recorder's memory and from the store.
pub struct HistoryService<'a, S: Store> {
    recorder: &'a Recorder,
    store: &'a S,
}

impl<'a, S: Store> HistoryService<'a, S> {
    /// The recorder that the service reads.
    pub closed spec fn recorder(&self) -> Recorder {
        *self.recorder
    }

    pub fn new(recorder: &'a Recorder, store: &'a S) -> (r: Self)
        ensures
            r.recorder() == *recorder,
    {
        HistoryService { recorder, store }
    }

    /// A series of samples in `[from, to]`, downsampled to at most
    /// `max_points` points. Realtime and day series come from memory; week and
    /// month series come from the store, asked as `series_source` says, and
    /// are finished by `finish_series` (a failed query gives an empty series).
    pub fn series(&self, tier: HistTier, mac: Option<&str>, from: i64, to: i64, max_points: usize) -> (out: Vec<Sample>)
        requires
            self.recorder().wf(),
        ensures
            tier == HistTier::Realtime ==> out@ == lttb_spec(
                ram_series_spec(self.recorder(), mac_key(mac), from, to, true),
                max_points as int,
            ),
            tier == HistTier::Day ==> out@ == lttb_spec(
                ram_series_spec(self.recorder(), mac_key(mac), from, to, false),
                max_points as int,
            ),
            tier == HistTier::Week || tier == HistTier::Month ==> exists|r: Result<Vec<Sample>, StoreError>|
                out@ == lttb_spec(stored_or_empty(r), max_points as int),
    {
        match series_source(tier, mac, from, to) {
            Some(q) => {
                let r = self.store.query(q.tier, q.mac, q.from, q.to);
                finish_series(r, max_points)
            },
            None => {
                let raw = self.ram_series(mac, from, to, tier == HistTier::Realtime);
                lttb(raw.as_slice(), max_points)
            },
        }
    }

    /// A series from memory, as `ram_series_spec` describes it.
    pub fn ram_series(&self, mac: Option<&str>, from: i64, to: i64, realtime: bool) -> (r: Vec<Sample>)
        requires
            self.recorder().wf(),
        ensures
            r@ == ram_series_spec(self.recorder(), mac_key(mac), from, to, realtime),
    {
        match mac {
            Some(m) => {
                let v = if realtime { self.recorder.realtime(m) } else { self.recorder.minutes(m) };
                window_exec(&v, from, to)
            },
            None => {
                let macs = self.recorder.macs();
                let ghost order = self.recorder().mac_order();
                let ghost groups = order.map_values(
                    |m: Seq<char>| window(held(self.recorder(), m, realtime), from, to),
                );
                let mut windows: Vec<Vec<Sample>> = Vec::new();
                let mut i: usize = 0;
                assert(windows@.map_values(|g: Vec<Sample>| g@) =~= groups.subrange(0, 0));
                while i < macs.len()
                    invariant
                        self.recorder().wf(),
                        macs@.map_values(|k: String| k@) == order,
                        order == self.recorder().mac_order(),
                        groups == order.map_values(
                            |m: Seq<char>| window(held(self.recorder(), m, realtime), from, to),
                        ),
                        i <= macs@.len(),
                        windows@.map_values(|g: Vec<Sample>| g@) == groups.subrange(0, i as int),
                    decreases macs@.len() - i,
                {
                    assert(macs@.map_values(|k: String| k@)[i as int] == macs@[i as int]@);
                    let v = if realtime {
                        self.recorder.realtime(macs[i].as_str())
                    } else {
                        self.recorder.minutes(macs[i].as_str())
                    };
                    assert(v@ == held(self.recorder(), macs@[i as int]@, realtime));
                    let w = window_exec(&v, from, to);
                    assert(groups[i as int] == w@);
                    let ghost before = windows@;
                    assert(groups.len() == macs@.len());
                    assert(before.map_values(|g: Vec<Sample>| g@).len() == before.len());
                    assert(before.len() == i);
                    windows.push(w);
                    assert forall|j: int| 0 <= j < i implies windows@[j]@ == groups[j] by {
                        assert(windows@[j] == before[j]);
                        assert(before.map_values(|g: Vec<Sample>| g@)[j] == before[j]@);
                    }
                    assert(windows@.map_values(|g: Vec<Sample>| g@) =~= groups.subrange(0, i + 1));
                    i = i + 1;
                }
                assert(groups.subrange(0, macs@.len() as int) =~= groups);
                merge_windows(&windows)
            },
        }
    }
}

} // verus!
