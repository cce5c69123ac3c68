use vstd::prelude::*;
use crate::probe::ProbeStatus;
use crate::sample::{clamp_u64, sat_mul, Sample};
use crate::snapshot::ClientView;

verus! {

/// A client as the API reports it: rates in bits per second, totals in bytes.
#[derive(Debug, Clone, PartialEq)]
pub struct ClientApi {
    pub mac: String,
    pub ip: String,
    pub host: String,
    pub rx_bps: u64,
    pub tx_bps: u64,
    pub rx_total: u64,
    pub tx_total: u64,
    pub conns_tcp: u32,
    pub conns_udp: u32,
}

/// Converts a view to its API form: rates go from bytes to bits per second
/// (saturating), everything else is copied.
pub fn client_api(v: &ClientView) -> (r: ClientApi)
    ensures
        r.mac@ == v.mac@,
        r.ip@ == v.ip@,
        r.host@ == v.host@,
        r.rx_bps == clamp_u64(v.rx_bps * 8),
        r.tx_bps == clamp_u64(v.tx_bps * 8),
        r.rx_total == v.rx_total,
        r.tx_total == v.tx_total,
        r.conns_tcp == v.conns_tcp,
        r.conns_udp == v.conns_udp,
{
    ClientApi {
        mac: v.mac.clone(),
        ip: v.ip.clone(),
        host: v.host.clone(),
        rx_bps: sat_mul(v.rx_bps, 8),
        tx_bps: sat_mul(v.tx_bps, 8),
        rx_total: v.rx_total,
        tx_total: v.tx_total,
        conns_tcp: v.conns_tcp,
        conns_udp: v.conns_udp,
    }
}

/// A history point as the API reports it: volumes in bytes, peaks in bits per second.
#[derive(Debug, Clone, PartialEq)]
pub struct ApiPoint {
    pub ts: i64,
    pub rx_bytes: u64,
    pub tx_bytes: u64,
    pub rx_peak_bits: u64,
    pub tx_peak_bits: u64,
    pub conns: u32,
}

/// Converts a sample to its API form: peaks go from bytes to bits per second
/// (saturating), volumes stay bytes.
pub fn api_point(s: &Sample) -> (r: ApiPoint)
    ensures
        r.ts == s.ts,
        r.rx_bytes == s.rx_bytes,
        r.tx_bytes == s.tx_bytes,
        r.rx_peak_bits == clamp_u64(s.rx_peak * 8),
        r.tx_peak_bits == clamp_u64(s.tx_peak * 8),
        r.conns == s.conns,
{
    ApiPoint {
        ts: s.ts,
        rx_bytes: s.rx_bytes,
        tx_bytes: s.tx_bytes,
        rx_peak_bits: sat_mul(s.rx_peak, 8),
        tx_peak_bits: sat_mul(s.tx_peak, 8),
        conns: s.conns,
    }
}

/// One entry of the top-talkers list.
#[derive(Debug, Clone, PartialEq)]
pub struct TopTalker {
    pub mac: String,
    pub rx_total: u64,
    pub tx_total: u64,
}

/// Totals over all clients and the biggest talkers.
#[derive(Debug, Clone, PartialEq)]
pub struct Summary {
    pub total_rx_bytes: u64,
    pub total_tx_bytes: u64,
    pub top: Vec<TopTalker>,
}

/// The volume a talker is ranked by: received plus sent bytes, saturating.
pub open spec fn talker_volume(t: TopTalker) -> u64 {
    clamp_u64(t.rx_total + t.tx_total)
}

/// `s` with `x` inserted after every element whose volume is at least that of `x`.
pub open spec fn insert_by_volume(s: Seq<TopTalker>, x: TopTalker) -> Seq<TopTalker>
    decreases s.len(),
{
    if s.len() == 0 {
        seq![x]
    } else if talker_volume(s[0]) < talker_volume(x) {
        seq![x] + s
    } else {
        seq![s[0]] + insert_by_volume(s.drop_first(), x)
    }
}

/// `s` ordered by volume, largest first; talkers of equal volume keep their
/// relative order (a stable sort).
pub open spec fn sort_by_volume(s: Seq<TopTalker>) -> Seq<TopTalker>
    decreases s.len(),
{
    if s.len() == 0 {
        Seq::empty()
    } else {
        insert_by_volume(sort_by_volume(s.drop_last()), s.last())
    }
}

/// The talker entry of a client.
pub open spec fn talker_of(c: ClientView) -> TopTalker {
    TopTalker { mac: c.mac, rx_total: c.rx_total, tx_total: c.tx_total }
}

/// The sum of the clients' received totals.
pub open spec fn sum_rx_total(s: Seq<ClientView>) -> int
    decreases s.len(),
{
    if s.len() == 0 { 0 } else { sum_rx_total(s.drop_last()) + s.last().rx_total }
}

/// The sum of the clients' sent totals.
pub open spec fn sum_tx_total(s: Seq<ClientView>) -> int
    decreases s.len(),
{
    if s.len() == 0 { 0 } else { sum_tx_total(s.drop_last()) + s.last().tx_total }
}

/// Whether volumes never increase along `s`.
pub open spec fn volume_descending(s: Seq<TopTalker>) -> bool {
    forall|i: int, j: int| #![trigger s[i], s[j]] 0 <= i < j < s.len() ==> talker_volume(s[j]) <= talker_volume(s[i])
}

proof fn lemma_sum_nonneg(s: Seq<ClientView>)
    ensures
        sum_rx_total(s) >= 0,
        sum_tx_total(s) >= 0,
    decreases s.len(),
{
    if s.len() > 0 {
        lemma_sum_nonneg(s.drop_last());
    }
}

/// Inserting at the first position whose volume is below that of `x`, after
/// a prefix whose volumes are all at least that of `x`, is `insert_by_volume`.
proof fn lemma_insert_at(s: Seq<TopTalker>, x: TopTalker, p: int)
    requires
        0 <= p <= s.len(),
        forall|i: int| 0 <= i < p ==> talker_volume(#[trigger] s[i]) >= talker_volume(x),
        p < s.len() ==> talker_volume(s[p]) < talker_volume(x),
    ensures
        s.insert(p, x) == insert_by_volume(s, x),
    decreases s.len(),
{
    if s.len() == 0 {
        assert(s.insert(p, x) =~= seq![x]);
    } else if p == 0 {
        assert(s.insert(p, x) =~= seq![x] + s);
    } else {
        let t = s.drop_first();
        assert forall|i: int| 0 <= i < p - 1 implies talker_volume(#[trigger] t[i]) >= talker_volume(x) by {
            assert(t[i] == s[i + 1]);
        }
        lemma_insert_at(t, x, p - 1);
        assert(s.insert(p, x) =~= seq![s[0]] + t.insert(p - 1, x));
    }
}

/// Inserting into a descending sequence keeps it descending and adds exactly `x`.
proof fn lemma_insert_sorted(s: Seq<TopTalker>, x: TopTalker)
    requires
        volume_descending(s),
    ensures
        volume_descending(insert_by_volume(s, x)),
        insert_by_volume(s, x).len() == s.len() + 1,
        insert_by_volume(s, x).to_multiset() == s.to_multiset().insert(x),
    decreases s.len(),
{
    broadcast use vstd::seq_lib::group_to_multiset_ensures;
    if s.len() == 0 {
        assert(seq![x] =~= Seq::<TopTalker>::empty().push(x));
    } else if talker_volume(s[0]) < talker_volume(x) {
        let r = seq![x] + s;
        assert(r =~= s.insert(0, x));
        assert forall|i: int, j: int| #![trigger r[i], r[j]] 0 <= i < j < r.len() implies talker_volume(r[j]) <= talker_volume(r[i]) by {
            if i > 0 {
                assert(r[i] == s[i - 1]);
                assert(r[j] == s[j - 1]);
            } else {
                assert(r[j] == s[j - 1]);
                assert(talker_volume(s[j - 1]) <= talker_volume(s[0]));
            }
        }
    } else {
        let t = s.drop_first();
        assert(volume_descending(t)) by {
            assert forall|i: int, j: int| #![trigger t[i], t[j]] 0 <= i < j < t.len() implies talker_volume(t[j]) <= talker_volume(t[i]) by {
                assert(t[i] == s[i + 1]);
                assert(t[j] == s[j + 1]);
            }
        }
        lemma_insert_sorted(t, x);
        let it = insert_by_volume(t, x);
        let r = seq![s[0]] + it;
        assert forall|j: int| 0 <= j < it.len() implies talker_volume(#[trigger] it[j]) <= talker_volume(s[0]) by {
            assert(it.to_multiset().count(it[j]) > 0);
            assert(t.to_multiset().insert(x).count(it[j]) > 0);
            if it[j] != x {
                assert(t.to_multiset().count(it[j]) > 0);
                assert(t.contains(it[j]));
                let k = choose|k: int| 0 <= k < t.len() && t[k] == it[j];
                assert(t[k] == s[k + 1]);
            }
        }
        assert forall|i: int, j: int| #![trigger r[i], r[j]] 0 <= i < j < r.len() implies talker_volume(r[j]) <= talker_volume(r[i]) by {
            assert(r[j] == it[j - 1]);
            if i > 0 {
                assert(r[i] == it[i - 1]);
            }
        }
        assert(s =~= seq![s[0]] + t);
        vstd::seq_lib::lemma_multiset_commutative(seq![s[0]], it);
        vstd::seq_lib::lemma_multiset_commutative(seq![s[0]], t);
        assert(r.to_multiset() =~= s.to_multiset().insert(x));
    }
}

/// The talkers come out ordered by volume, largest first, and they are
/// exactly the talkers that went in.
pub proof fn lemma_sort_by_volume(s: Seq<TopTalker>)
    ensures
        volume_descending(sort_by_volume(s)),
        sort_by_volume(s).len() == s.len(),
        sort_by_volume(s).to_multiset() == s.to_multiset(),
    decreases s.len(),
{
    broadcast use vstd::seq_lib::group_to_multiset_ensures;
    if s.len() > 0 {
        lemma_sort_by_volume(s.drop_last());
        lemma_insert_sorted(sort_by_volume(s.drop_last()), s.last());
        assert(s =~= s.drop_last().push(s.last()));
    }
}

/// The total traffic of all clients (each total saturating at `u64::MAX`)
/// and the `top_n` biggest talkers, largest first, ties in input order.
pub fn summary(clients: &[ClientView], top_n: usize) -> (r: Summary)
    ensures
        r.total_rx_bytes == clamp_u64(sum_rx_total(clients@)),
        r.total_tx_bytes == clamp_u64(sum_tx_total(clients@)),
        r.top@ == sort_by_volume(clients@.map_values(|c: ClientView| talker_of(c))).take(
            if top_n < clients@.len() { top_n as int } else { clients@.len() as int },
        ),
{
    let n = clients.len();
    let mut total_rx: u64 = 0;
    let mut total_tx: u64 = 0;
    let mut sorted: Vec<TopTalker> = Vec::new();
    let ghost talkers = clients@.map_values(|c: ClientView| talker_of(c));
    let mut i: usize = 0;
    while i < n
        invariant
            n == clients@.len(),
            i <= n,
            talkers == clients@.map_values(|c: ClientView| talker_of(c)),
            total_rx == clamp_u64(sum_rx_total(clients@.subrange(0, i as int))),
            total_tx == clamp_u64(sum_tx_total(clients@.subrange(0, i as int))),
            sorted@ == sort_by_volume(talkers.subrange(0, i as int)),
        decreases n - i,
    {
        let c = &clients[i];
        let ghost pre = clients@.subrange(0, i as int);
        assert(clients@.subrange(0, i + 1).drop_last() =~= pre);
        assert(talkers.subrange(0, i + 1).drop_last() =~= talkers.subrange(0, i as int));
        proof {
            lemma_sum_nonneg(pre);
        }
        total_rx = total_rx.saturating_add(c.rx_total);
        total_tx = total_tx.saturating_add(c.tx_total);
        let t = TopTalker { mac: c.mac.clone(), rx_total: c.rx_total, tx_total: c.tx_total };
        assert(t == talker_of(*c));
        let key = t.rx_total.saturating_add(t.tx_total);
        let mut p: usize = 0;
        while p < sorted.len() && sorted[p].rx_total.saturating_add(sorted[p].tx_total) >= key
            invariant
                p <= sorted@.len(),
                key == talker_volume(t),
                forall|j: int| 0 <= j < p ==> talker_volume(#[trigger] sorted@[j]) >= talker_volume(t),
            decreases sorted@.len() - p,
        {
            p = p + 1;
        }
        proof {
            lemma_insert_at(sorted@, t, p as int);
        }
        sorted.insert(p, t);
        i = i + 1;
    }
    assert(clients@.subrange(0, n as int) =~= clients@);
    assert(talkers.subrange(0, n as int) =~= talkers);
    proof {
        lemma_sort_by_volume(talkers);
    }
    sorted.truncate(top_n);
    Summary { total_rx_bytes: total_rx, total_tx_bytes: total_tx, top: sorted }
}

/// The daemon's status as the API reports it.
#[derive(Debug, Clone, PartialEq)]
pub struct StatusApi {
    pub enabled: bool,
    pub conntrack_acct: bool,
    pub btf: bool,
    pub clsact: bool,
    pub hw_stats_advancing: Option<bool>,
    pub version: String,
}

/// Assembles the status report from the enabled flag, the probe results and the version.
pub fn status_api(enabled: bool, p: &ProbeStatus, version: &str) -> (r: StatusApi)
    ensures
        r.enabled == enabled,
        r.conntrack_acct == p.conntrack_acct,
        r.btf == p.btf,
        r.clsact == p.clsact,
        r.hw_stats_advancing == p.hw_stats_advancing,
        r.version@ == version@,
{
    StatusApi {
        enabled,
        conntrack_acct: p.conntrack_acct,
        btf: p.btf,
        clsact: p.clsact,
        hw_stats_advancing: p.hw_stats_advancing,
        version: version.to_owned(),
    }
}

} // verus!
