use vstd::prelude::*;
use vstd::hash_map::HashMapWithView;
use crate::classify::{attribute_spec, ClientDelta, IpNet, LanClassifier};
use crate::flow::{Flow, Proto};
use crate::ip::IpAddress;
use crate::ipmap::IpMap;
use crate::sample::clamp_u64;

verus! {

broadcast use vstd::std_specs::hash::group_hash_axioms;

/// One LAN client's traffic. Rates are in bytes per second; an API that
/// reports bits per second multiplies them by 8.
#[derive(Debug, Clone, Copy, Default, PartialEq, Eq, Structural)]
pub struct ClientStats {
    pub rx_total: u64,
    pub tx_total: u64,
    pub rx_bps: u64,
    pub tx_bps: u64,
    pub conns_tcp: u32,
    pub conns_udp: u32,
}

/// A client's running totals during one scan, as unbounded integers.
pub struct Totals {
    pub rx_total: int,
    pub tx_total: int,
    pub conns_tcp: int,
    pub conns_udp: int,
}

/// The state of one scan: totals per client, the bytes this scan added per
/// client, and the byte counters seen per flow key.
pub struct Tally {
    pub totals: Map<IpAddress, Totals>,
    pub interval: Map<IpAddress, (int, int)>,
    pub seen: Map<u64, (u64, u64)>,
}

/// `a - b`, or 0 when `b` is larger.
pub open spec fn sat_sub(a: u64, b: u64) -> u64 {
    if a >= b { (a - b) as u64 } else { 0 }
}

/// The bytes a flow added since the previous scan: the growth of its counters
/// (never negative), or all of them for a flow not seen before.
pub open spec fn flow_delta(last: Map<u64, (u64, u64)>, key: u64, d: ClientDelta) -> (u64, u64) {
    if last.contains_key(key) {
        (sat_sub(d.rx, last[key].0), sat_sub(d.tx, last[key].1))
    } else {
        (d.rx, d.tx)
    }
}

pub open spec fn zero_totals() -> Totals {
    Totals { rx_total: 0, tx_total: 0, conns_tcp: 0, conns_udp: 0 }
}

/// One flow's contribution to a scan: its LAN client (if any) gets a
/// connection of its protocol and the flow's new bytes.
pub open spec fn tally_flow(t: Tally, last: Map<u64, (u64, u64)>, prefixes: Seq<IpNet>, f: Flow) -> Tally {
    match attribute_spec(prefixes, f) {
        None => t,
        Some(d) => {
            let e0 = if t.totals.contains_key(d.client) { t.totals[d.client] } else { zero_totals() };
            let (drx, dtx) = flow_delta(last, f.flow_key, d);
            let e1 = Totals {
                rx_total: e0.rx_total + drx,
                tx_total: e0.tx_total + dtx,
                conns_tcp: e0.conns_tcp + (if d.proto == Proto::Tcp { 1int } else { 0int }),
                conns_udp: e0.conns_udp + (if d.proto == Proto::Udp { 1int } else { 0int }),
            };
            let i0 = if t.interval.contains_key(d.client) { t.interval[d.client] } else { (0int, 0int) };
            Tally {
                totals: t.totals.insert(d.client, e1),
                interval: t.interval.insert(d.client, (i0.0 + drx, i0.1 + dtx)),
                seen: t.seen.insert(f.flow_key, (d.rx, d.tx)),
            }
        },
    }
}

/// The state after all `flows`, in order.
pub open spec fn tally_flows(t: Tally, last: Map<u64, (u64, u64)>, prefixes: Seq<IpNet>, flows: Seq<Flow>) -> Tally
    decreases flows.len(),
{
    if flows.len() == 0 {
        t
    } else {
        tally_flow(tally_flows(t, last, prefixes, flows.drop_last()), last, prefixes, flows.last())
    }
}

/// The state at the start of a scan: totals carried over, connections reset.
pub open spec fn start_tally(stats: Map<IpAddress, ClientStats>) -> Tally {
    Tally {
        totals: stats.map_values(|s: ClientStats| Totals {
            rx_total: s.rx_total as int,
            tx_total: s.tx_total as int,
            conns_tcp: 0,
            conns_udp: 0,
        }),
        interval: Map::empty(),
        seen: Map::empty(),
    }
}

/// Bytes over milliseconds, as bytes per second, saturating.
pub open spec fn rate(bytes: int, dt_ms: int) -> u64 {
    clamp_u64(bytes * 1000 / dt_ms)
}

/// Milliseconds since the previous scan, when positive.
pub open spec fn elapsed_of(last: Option<i64>, now: i64) -> Option<int> {
    match last {
        Some(t) => if now - t > 0 { Some(now - t) } else { None },
        None => None,
    }
}

/// The client table after a scan: totals and connection counts from the
/// tally; rates from this scan's bytes over the elapsed time for clients seen
/// in this scan, 0 for the others and on the first scan.
pub open spec fn stats_after(t: Tally, elapsed: Option<int>) -> Map<IpAddress, ClientStats> {
    Map::new(
        |ip: IpAddress| t.totals.contains_key(ip),
        |ip: IpAddress| {
            let e = t.totals[ip];
            ClientStats {
                rx_total: e.rx_total as u64,
                tx_total: e.tx_total as u64,
                rx_bps: match elapsed {
                    Some(dt) => if t.interval.contains_key(ip) { rate(t.interval[ip].0, dt) } else { 0 },
                    None => 0,
                },
                tx_bps: match elapsed {
                    Some(dt) => if t.interval.contains_key(ip) { rate(t.interval[ip].1, dt) } else { 0 },
                    None => 0,
                },
                conns_tcp: e.conns_tcp as u32,
                conns_udp: e.conns_udp as u32,
            }
        },
    )
}

/// Facts that hold along a scan: counts stay within the number of flows,
/// this scan's bytes stay within the totals, and nothing is negative.
pub open spec fn tally_sound(t: Tally, nflows: int) -> bool {
    &&& forall|ip: IpAddress| #[trigger] t.interval.contains_key(ip) ==> t.totals.contains_key(ip)
    &&& forall|ip: IpAddress| #[trigger] t.interval.contains_key(ip) ==> 0 <= t.interval[ip].0 <= t.totals[ip].rx_total && 0
        <= t.interval[ip].1 <= t.totals[ip].tx_total
    &&& forall|ip: IpAddress| #[trigger] t.totals.contains_key(ip) ==> 0 <= t.totals[ip].rx_total && 0
        <= t.totals[ip].tx_total && 0 <= t.totals[ip].conns_tcp && 0 <= t.totals[ip].conns_udp
        && t.totals[ip].conns_tcp + t.totals[ip].conns_udp <= nflows
}

proof fn lemma_tally_sound(stats: Map<IpAddress, ClientStats>, last: Map<u64, (u64, u64)>, prefixes: Seq<IpNet>, flows: Seq<Flow>)
    ensures
        tally_sound(tally_flows(start_tally(stats), last, prefixes, flows), flows.len() as int),
    decreases flows.len(),
{
    if flows.len() > 0 {
        lemma_tally_sound(stats, last, prefixes, flows.drop_last());
    }
}

/// Totals only grow along a scan.
pub open spec fn tally_le(a: Tally, b: Tally) -> bool {
    forall|ip: IpAddress| #[trigger] a.totals.contains_key(ip) ==> b.totals.contains_key(ip) && a.totals[ip].rx_total
        <= b.totals[ip].rx_total && a.totals[ip].tx_total <= b.totals[ip].tx_total
}

proof fn lemma_tally_mono(t: Tally, last: Map<u64, (u64, u64)>, prefixes: Seq<IpNet>, flows: Seq<Flow>, j: int)
    requires
        0 <= j <= flows.len(),
    ensures
        tally_le(
            tally_flows(t, last, prefixes, flows.subrange(0, j)),
            tally_flows(t, last, prefixes, flows),
        ),
    decreases flows.len(),
{
    if j < flows.len() {
        lemma_tally_mono(t, last, prefixes, flows.drop_last(), j);
        assert(flows.drop_last().subrange(0, j) =~= flows.subrange(0, j));
    } else {
        assert(flows.subrange(0, j) =~= flows);
    }
}

/// From one scan to the next no client is forgotten and no client's byte
/// totals decrease, whatever the flows of the scan.
pub proof fn lemma_totals_never_decrease(
    stats: Map<IpAddress, ClientStats>,
    last: Map<u64, (u64, u64)>,
    prefixes: Seq<IpNet>,
    flows: Seq<Flow>,
    elapsed: Option<int>,
)
    requires
        fits(tally_flows(start_tally(stats), last, prefixes, flows), flows.len() as int),
    ensures
        forall|ip: IpAddress| #[trigger] stats.contains_key(ip) ==> {
            let after = stats_after(tally_flows(start_tally(stats), last, prefixes, flows), elapsed);
            &&& after.contains_key(ip)
            &&& after[ip].rx_total >= stats[ip].rx_total
            &&& after[ip].tx_total >= stats[ip].tx_total
        },
{
    let t0 = start_tally(stats);
    lemma_tally_mono(t0, last, prefixes, flows, 0);
    assert(flows.subrange(0, 0) =~= Seq::<Flow>::empty());
    let t = tally_flows(t0, last, prefixes, flows);
    assert forall|ip: IpAddress| #[trigger] stats.contains_key(ip) implies {
        let after = stats_after(t, elapsed);
        &&& after.contains_key(ip)
        &&& after[ip].rx_total >= stats[ip].rx_total
        &&& after[ip].tx_total >= stats[ip].tx_total
    } by {
        assert(t0.totals.contains_key(ip));
        assert(t.totals.contains_key(ip));
    }
}

/// Whether a flow is attributed to the LAN client `ip`.
pub open spec fn attributes_to(prefixes: Seq<IpNet>, f: Flow, ip: IpAddress) -> bool {
    attribute_spec(prefixes, f) matches Some(d) && d.client == ip
}

/// Whether some flow of the scan is attributed to `ip`.
pub open spec fn attributed(prefixes: Seq<IpNet>, flows: Seq<Flow>, ip: IpAddress) -> bool {
    exists|i: int| 0 <= i < flows.len() && #[trigger] attributes_to(prefixes, flows[i], ip)
}

proof fn lemma_tally_untouched(t: Tally, last: Map<u64, (u64, u64)>, prefixes: Seq<IpNet>, flows: Seq<Flow>, ip: IpAddress)
    ensures
        tally_flows(t, last, prefixes, flows).totals.contains_key(ip) <==> (t.totals.contains_key(ip) || attributed(
            prefixes,
            flows,
            ip,
        )),
        !attributed(prefixes, flows, ip) ==> {
            let t2 = tally_flows(t, last, prefixes, flows);
            &&& (t.totals.contains_key(ip) ==> t2.totals[ip] == t.totals[ip])
            &&& (t2.interval.contains_key(ip) <==> t.interval.contains_key(ip))
        },
    decreases flows.len(),
{
    if flows.len() > 0 {
        let pre = flows.drop_last();
        lemma_tally_untouched(t, last, prefixes, pre, ip);
        let f = flows.last();
        if attributed(prefixes, pre, ip) {
            let i = choose|i: int| 0 <= i < pre.len() && #[trigger] attributes_to(prefixes, pre[i], ip);
            assert(flows[i] == pre[i]);
        }
        if attributes_to(prefixes, f, ip) {
            assert(flows[flows.len() - 1] == f);
        }
        if attributed(prefixes, flows, ip) && !attributes_to(prefixes, f, ip) {
            let i = choose|i: int| 0 <= i < flows.len() && #[trigger] attributes_to(prefixes, flows[i], ip);
            assert(i < flows.len() - 1);
            assert(pre[i] == flows[i]);
        }
        if !attributed(prefixes, flows, ip) {
            assert(flows[flows.len() - 1] == f);
            if attributed(prefixes, pre, ip) {
                let i = choose|i: int| 0 <= i < pre.len() && #[trigger] attributes_to(prefixes, pre[i], ip);
                assert(flows[i] == pre[i]);
            }
        }
    }
}

/// The totals a client starts a scan with: its earlier totals, or none.
pub open spec fn start_bytes(stats: Map<IpAddress, ClientStats>, ip: IpAddress) -> (int, int) {
    if stats.contains_key(ip) { (stats[ip].rx_total as int, stats[ip].tx_total as int) } else { (0, 0) }
}

proof fn lemma_interval_is_growth(
    stats: Map<IpAddress, ClientStats>,
    last: Map<u64, (u64, u64)>,
    prefixes: Seq<IpNet>,
    flows: Seq<Flow>,
    ip: IpAddress,
)
    ensures
        ({
            let t = tally_flows(start_tally(stats), last, prefixes, flows);
            &&& t.interval.contains_key(ip) <==> attributed(prefixes, flows, ip)
            &&& t.interval.contains_key(ip) ==> t.totals.contains_key(ip)
                && t.interval[ip].0 == t.totals[ip].rx_total - start_bytes(stats, ip).0
                && t.interval[ip].1 == t.totals[ip].tx_total - start_bytes(stats, ip).1
        }),
    decreases flows.len(),
{
    let t0 = start_tally(stats);
    lemma_tally_untouched(t0, last, prefixes, flows, ip);
    if flows.len() > 0 {
        let pre = flows.drop_last();
        let f = flows.last();
        lemma_interval_is_growth(stats, last, prefixes, pre, ip);
        lemma_tally_untouched(t0, last, prefixes, pre, ip);
        let tp = tally_flows(t0, last, prefixes, pre);
        if attributed(prefixes, pre, ip) {
            let i = choose|i: int| 0 <= i < pre.len() && #[trigger] attributes_to(prefixes, pre[i], ip);
            assert(flows[i] == pre[i]);
        }
        if attributes_to(prefixes, f, ip) {
            assert(flows[flows.len() - 1] == f);
        }
        if attributed(prefixes, flows, ip) && !attributes_to(prefixes, f, ip) {
            let i = choose|i: int| 0 <= i < flows.len() && #[trigger] attributes_to(prefixes, flows[i], ip);
            assert(i < flows.len() - 1);
            assert(pre[i] == flows[i]);
        }
        if !attributed(prefixes, pre, ip) && tp.totals.contains_key(ip) {
            assert(t0.totals.contains_key(ip));
        }
    }
}

/// A client's rate in a scan covers all of the bytes the scan added to its
/// totals: with `dt` milliseconds since the previous scan, a client some flow
/// is attributed to gets `(new total - old total) * 1000 / dt` bytes per
/// second (saturating), in each direction.
pub proof fn lemma_rate_covers_all_new_bytes(
    stats: Map<IpAddress, ClientStats>,
    last: Map<u64, (u64, u64)>,
    prefixes: Seq<IpNet>,
    flows: Seq<Flow>,
    dt: int,
    ip: IpAddress,
)
    requires
        dt > 0,
        attributed(prefixes, flows, ip),
        fits(tally_flows(start_tally(stats), last, prefixes, flows), flows.len() as int),
    ensures
        ({
            let after = stats_after(tally_flows(start_tally(stats), last, prefixes, flows), Some(dt));
            &&& after.contains_key(ip)
            &&& after[ip].rx_bps == clamp_u64((after[ip].rx_total - start_bytes(stats, ip).0) * 1000 / dt)
            &&& after[ip].tx_bps == clamp_u64((after[ip].tx_total - start_bytes(stats, ip).1) * 1000 / dt)
        }),
{
    let t = tally_flows(start_tally(stats), last, prefixes, flows);
    lemma_interval_is_growth(stats, last, prefixes, flows, ip);
    lemma_tally_sound(stats, last, prefixes, flows);
    assert(t.totals.contains_key(ip));
}

/// After a scan, the known clients are the earlier ones and those that some
/// flow of the scan is attributed to; a client with no attributed flow keeps
/// its totals and ends with zero rates and zero connections.
pub proof fn lemma_scan_clients(
    stats: Map<IpAddress, ClientStats>,
    last: Map<u64, (u64, u64)>,
    prefixes: Seq<IpNet>,
    flows: Seq<Flow>,
    elapsed: Option<int>,
)
    ensures
        ({
            let after = stats_after(tally_flows(start_tally(stats), last, prefixes, flows), elapsed);
            &&& forall|ip: IpAddress| #[trigger] after.contains_key(ip) <==> (stats.contains_key(ip) || attributed(
                prefixes,
                flows,
                ip,
            ))
            &&& forall|ip: IpAddress| stats.contains_key(ip) && !attributed(prefixes, flows, ip) ==> {
                &&& #[trigger] after[ip].rx_total == stats[ip].rx_total
                &&& after[ip].tx_total == stats[ip].tx_total
                &&& after[ip].rx_bps == 0
                &&& after[ip].tx_bps == 0
                &&& after[ip].conns_tcp == 0
                &&& after[ip].conns_udp == 0
            }
        }),
{
    let t0 = start_tally(stats);
    let t = tally_flows(t0, last, prefixes, flows);
    let after = stats_after(t, elapsed);
    assert forall|ip: IpAddress| #[trigger] after.contains_key(ip) <==> (stats.contains_key(ip) || attributed(
        prefixes,
        flows,
        ip,
    )) by {
        lemma_tally_untouched(t0, last, prefixes, flows, ip);
    }
    assert forall|ip: IpAddress| stats.contains_key(ip) && !attributed(prefixes, flows, ip) implies {
        &&& #[trigger] after[ip].rx_total == stats[ip].rx_total
        &&& after[ip].tx_total == stats[ip].tx_total
        &&& after[ip].rx_bps == 0
        &&& after[ip].tx_bps == 0
        &&& after[ip].conns_tcp == 0
        &&& after[ip].conns_udp == 0
    } by {
        lemma_tally_untouched(t0, last, prefixes, flows, ip);
        assert(t0.totals.contains_key(ip));
        assert(!t0.interval.contains_key(ip));
    }
}

/// Whether a table of byte totals agrees with scan totals.
pub open spec fn bytes_correspond(m: Map<IpAddress, (u64, u64)>, t: Map<IpAddress, Totals>) -> bool {
    &&& m.dom() == t.dom()
    &&& forall|ip: IpAddress| #[trigger] m.contains_key(ip) ==> m[ip].0 == t[ip].rx_total && m[ip].1 == t[ip].tx_total
}

/// Whether a client table agrees with scan totals on clients, totals and connection counts.
pub open spec fn corresponds(m: Map<IpAddress, ClientStats>, t: Map<IpAddress, Totals>) -> bool {
    &&& m.dom() == t.dom()
    &&& forall|ip: IpAddress| #[trigger] m.contains_key(ip) ==> m[ip].rx_total == t[ip].rx_total && m[ip].tx_total
        == t[ip].tx_total && m[ip].conns_tcp == t[ip].conns_tcp && m[ip].conns_udp == t[ip].conns_udp
}

/// Whether a table of this scan's bytes agrees with the scan's.
pub open spec fn interval_corresponds(m: Map<IpAddress, (u64, u64)>, t: Map<IpAddress, (int, int)>) -> bool {
    &&& m.dom() == t.dom()
    &&& forall|ip: IpAddress| #[trigger] m.contains_key(ip) ==> m[ip].0 == t[ip].0 && m[ip].1 == t[ip].1
}

/// Whether every totals entry fits the counters' types.
pub open spec fn fits(t: Tally, nflows: int) -> bool {
    &&& nflows <= u32::MAX
    &&& forall|ip: IpAddress| #[trigger] t.totals.contains_key(ip) ==> t.totals[ip].rx_total <= u64::MAX
        && t.totals[ip].tx_total <= u64::MAX
}

/// Accounts one flow.
fn tally_step(
    classifier: &LanClassifier,
    last: &HashMapWithView<u64, (u64, u64)>,
    stats: &mut IpMap<ClientStats>,
    interval: &mut IpMap<(u64, u64)>,
    seen: &mut HashMapWithView<u64, (u64, u64)>,
    f: &Flow,
    Ghost(t): Ghost<Tally>,
    Ghost(nflows): Ghost<int>,
    Ghost(j): Ghost<int>,
)
    requires
        old(stats).wf(),
        old(interval).wf(),
        corresponds(old(stats).map(), t.totals),
        interval_corresponds(old(interval).map(), t.interval),
        old(seen)@ == t.seen,
        forall|ip: IpAddress| #[trigger] old(stats).map().contains_key(ip) ==> old(stats).map()[ip].rx_bps == 0 && old(stats).map()[ip].tx_bps == 0,
        tally_sound(t, j),
        tally_sound(tally_flow(t, last@, classifier.prefixes(), *f), j + 1),
        j + 1 <= nflows,
        fits(tally_flow(t, last@, classifier.prefixes(), *f), nflows),
    ensures
        final(stats).wf(),
        final(interval).wf(),
        ({
            let t1 = tally_flow(t, last@, classifier.prefixes(), *f);
            &&& corresponds(final(stats).map(), t1.totals)
            &&& interval_corresponds(final(interval).map(), t1.interval)
            &&& final(seen)@ == t1.seen
        }),
        forall|ip: IpAddress| #[trigger] final(stats).map().contains_key(ip) ==> final(stats).map()[ip].rx_bps == 0 && final(stats).map()[ip].tx_bps == 0,
{
    let ghost t1 = tally_flow(t, last@, classifier.prefixes(), *f);
    match classifier.attribute(f) {
        None => {},
        Some(d) => {
            let e0 = match stats.get(&d.client) {
                Some(x) => *x,
                None => ClientStats { rx_total: 0, tx_total: 0, rx_bps: 0, tx_bps: 0, conns_tcp: 0, conns_udp: 0 },
            };
            let (drx, dtx) = match last.get(&f.flow_key) {
                Some(prev) => (d.rx.saturating_sub(prev.0), d.tx.saturating_sub(prev.1)),
                None => (d.rx, d.tx),
            };
            assert((drx, dtx) == flow_delta(last@, f.flow_key, d));
            assert(t1.totals.contains_key(d.client));
            let ghost e1 = t1.totals[d.client];
            assert(e1.rx_total <= u64::MAX && e1.tx_total <= u64::MAX);
            assert(e1.conns_tcp + e1.conns_udp <= j + 1);
            let e1x = ClientStats {
                rx_total: e0.rx_total + drx,
                tx_total: e0.tx_total + dtx,
                rx_bps: 0,
                tx_bps: 0,
                conns_tcp: e0.conns_tcp + (if d.proto == Proto::Tcp { 1 } else { 0 }),
                conns_udp: e0.conns_udp + (if d.proto == Proto::Udp { 1 } else { 0 }),
            };
            stats.insert(d.client, e1x);
            let i0 = match interval.get(&d.client) {
                Some(x) => *x,
                None => (0u64, 0u64),
            };
            assert(t1.interval[d.client].0 == i0.0 + drx);
            assert(t1.interval[d.client].1 == i0.1 + dtx);
            interval.insert(d.client, (i0.0 + drx, i0.1 + dtx));
            seen.insert(f.flow_key, (d.rx, d.tx));
            assert(final(stats).map().dom() =~= t1.totals.dom());
            assert(interval.map().dom() =~= t1.interval.dom());
        },
    }
}

/// Bytes over milliseconds, as bytes per second, saturating.
fn rate_exec(bytes: u64, dt_ms: i64) -> (r: u64)
    requires
        dt_ms > 0,
    ensures
        r == rate(bytes as int, dt_ms as int),
{
    let q: u128 = (bytes as u128) * 1000 / (dt_ms as u128);
    if q > 0xffff_ffff_ffff_ffff { 0xffff_ffff_ffff_ffff } else { q as u64 }
}

/// Keeps per-client traffic totals and rates from successive conntrack scans.
pub struct Accountant {
    classifier: LanClassifier,
    last_flows: HashMapWithView<u64, (u64, u64)>,
    stats: IpMap<ClientStats>,
    last_ms: Option<i64>,
}

impl Accountant {
    /// The accountant's internal invariant.
    pub closed spec fn wf(self) -> bool {
        self.stats.wf()
    }

    /// The client table.
    pub closed spec fn stats_map(self) -> Map<IpAddress, ClientStats> {
        self.stats.map()
    }

    /// The byte counters of each flow at the previous scan, by flow key.
    pub closed spec fn last_counters(self) -> Map<u64, (u64, u64)> {
        self.last_flows@
    }

    /// When the previous scan was, in milliseconds.
    pub closed spec fn last_tick(self) -> Option<i64> {
        self.last_ms
    }

    /// The LAN prefixes clients are recognised by.
    pub closed spec fn prefixes(self) -> Seq<IpNet> {
        self.classifier.prefixes()
    }

    /// When the previous scan was, in milliseconds.
    pub fn last_update_ms(&self) -> (r: Option<i64>)
        ensures
            r == self.last_tick(),
    {
        self.last_ms
    }

    /// Whether a scan of `flows` keeps every count within its type, as
    /// `update` needs: at most `u32::MAX` flows and every client's byte totals
    /// within `u64`.
    pub fn scan_fits(&self, flows: &[Flow]) -> (r: bool)
        requires
            self.wf(),
        ensures
            r == fits(
                tally_flows(start_tally(self.stats_map()), self.last_counters(), self.prefixes(), flows@),
                flows@.len() as int,
            ),
    {
        let nf = flows.len();
        if nf > 0xffff_ffff {
            return false;
        }
        let ghost prefixes = self.prefixes();
        let ghost last = self.last_counters();
        let ghost t0 = start_tally(self.stats_map());
        let ghost tn = tally_flows(t0, last, prefixes, flows@);
        let (keys, vals) = self.stats.entries();
        let mut tot: IpMap<(u64, u64)> = IpMap::new();
        let mut i: usize = 0;
        while i < keys.len()
            invariant
                self.wf(),
                keys@ == self.stats.key_seq(),
                vals@ == self.stats.val_seq(),
                keys@.len() == vals@.len(),
                forall|j: int| 0 <= j < keys@.len() ==> self.stats.map().contains_key(#[trigger] keys@[j])
                    && self.stats.map()[keys@[j]] == vals@[j],
                i <= keys@.len(),
                tot.wf(),
                forall|ip: IpAddress| #[trigger] tot.map().contains_key(ip) <==> exists|j: int| 0 <= j < i && keys@[j] == ip,
                forall|ip: IpAddress| #[trigger] tot.map().contains_key(ip) ==> self.stats.map().contains_key(ip)
                    && tot.map()[ip] == (self.stats.map()[ip].rx_total, self.stats.map()[ip].tx_total),
            decreases keys@.len() - i,
        {
            let v = &vals[i];
            let ghost before = tot.map();
            tot.insert(keys[i], (v.rx_total, v.tx_total));
            proof {
                assert forall|ip: IpAddress| #[trigger] tot.map().contains_key(ip) <==> exists|j: int| 0 <= j < i + 1 && keys@[j] == ip by {
                    if ip == keys@[i as int] {
                        assert(0 <= i < i + 1 && keys@[i as int] == ip);
                    }
                    if before.contains_key(ip) {
                        let j = choose|j: int| 0 <= j < i && keys@[j] == ip;
                        assert(0 <= j < i + 1 && keys@[j] == ip);
                    }
                    if exists|j: int| 0 <= j < i + 1 && keys@[j] == ip {
                        let j = choose|j: int| 0 <= j < i + 1 && keys@[j] == ip;
                        if j < i {
                            assert(before.contains_key(ip));
                        }
                    }
                }
            }
            i = i + 1;
        }
        proof {
            self.stats.lemma_props();
            assert(tot.map().dom() =~= t0.totals.dom()) by {
                assert forall|ip: IpAddress| tot.map().contains_key(ip) <==> t0.totals.contains_key(ip) by {
                    if self.stats.map().contains_key(ip) {
                        let j = choose|j: int| 0 <= j < self.stats.key_seq().len() && #[trigger] self.stats.key_seq()[j] == ip;
                        assert(0 <= j < i && keys@[j] == ip);
                    }
                }
            }
        }
        let mut j: usize = 0;
        assert(flows@.subrange(0, 0) =~= Seq::<Flow>::empty());
        while j < nf
            invariant
                nf == flows@.len(),
                nf <= 0xffff_ffff,
                j <= nf,
                tot.wf(),
                self.classifier.prefixes() == prefixes,
                self.last_flows@ == last,
                t0 == start_tally(self.stats_map()),
                tn == tally_flows(t0, last, prefixes, flows@),
                bytes_correspond(tot.map(), tally_flows(t0, last, prefixes, flows@.subrange(0, j as int)).totals),
            decreases nf - j,
        {
            let ghost tj = tally_flows(t0, last, prefixes, flows@.subrange(0, j as int));
            let ghost sub1 = flows@.subrange(0, j + 1);
            assert(sub1.drop_last() =~= flows@.subrange(0, j as int));
            assert(sub1.last() == flows@[j as int]);
            let ghost t1 = tally_flow(tj, last, prefixes, flows@[j as int]);
            assert(t1 == tally_flows(t0, last, prefixes, sub1));
            let f = &flows[j];
            match self.classifier.attribute(f) {
                None => {},
                Some(d) => {
                    let e0 = match tot.get(&d.client) {
                        Some(x) => *x,
                        None => (0u64, 0u64),
                    };
                    let (drx, dtx) = match self.last_flows.get(&f.flow_key) {
                        Some(prev) => (d.rx.saturating_sub(prev.0), d.tx.saturating_sub(prev.1)),
                        None => (d.rx, d.tx),
                    };
                    assert((drx, dtx) == flow_delta(last, f.flow_key, d));
                    let rx = e0.0.checked_add(drx);
                    let tx = e0.1.checked_add(dtx);
                    if rx.is_none() || tx.is_none() {
                        proof {
                            assert(attribute_spec(prefixes, flows@[j as int]) == Some(d));
                            assert(t1.totals.contains_key(d.client));
                            assert(t1.totals[d.client].rx_total == e0.0 + drx);
                            assert(t1.totals[d.client].tx_total == e0.1 + dtx);
                            lemma_tally_mono(t0, last, prefixes, flows@, j + 1);
                            assert(tally_le(t1, tn));
                            assert(tn.totals.contains_key(d.client));
                        }
                        return false;
                    }
                    let ghost before = tot.map();
                    tot.insert(d.client, (rx.unwrap(), tx.unwrap()));
                    assert(tot.map().dom() =~= t1.totals.dom());
                },
            }
            j = j + 1;
        }
        assert(flows@.subrange(0, nf as int) =~= flows@);
        true
    }

    pub fn new(classifier: LanClassifier) -> (r: Self)
        ensures
            r.wf(),
            r.stats_map() == Map::<IpAddress, ClientStats>::empty(),
            r.last_counters() == Map::<u64, (u64, u64)>::empty(),
            r.last_tick() == None::<i64>,
            r.prefixes() == classifier.prefixes(),
    {
        Accountant {
            classifier,
            last_flows: HashMapWithView::new(),
            stats: IpMap::new(),
            last_ms: None,
        }
    }

    /// The client table, each client once, in the order first seen.
    pub fn stats(&self) -> (r: Vec<(IpAddress, ClientStats)>)
        requires
            self.wf(),
        ensures
            forall|i: int| 0 <= i < r@.len() ==> self.stats_map().contains_key(#[trigger] r@[i].0)
                && self.stats_map()[r@[i].0] == r@[i].1,
            forall|ip: IpAddress| self.stats_map().contains_key(ip) ==> exists|i: int| 0 <= i < r@.len() && #[trigger] r@[i].0 == ip,
            forall|i: int, j: int| 0 <= i < j < r@.len() ==> r@[i].0 != r@[j].0,
    {
        let (ks, vs) = self.stats.entries();
        let mut out: Vec<(IpAddress, ClientStats)> = Vec::new();
        let mut i: usize = 0;
        while i < ks.len()
            invariant
                ks@.len() == vs@.len(),
                i <= ks@.len(),
                out@.len() == i,
                forall|j: int| 0 <= j < i ==> #[trigger] out@[j] == (ks@[j], vs@[j]),
            decreases ks@.len() - i,
        {
            out.push((ks[i], vs[i]));
            i = i + 1;
        }
        proof {
            assert forall|ip: IpAddress| self.stats_map().contains_key(ip) implies exists|i: int| 0 <= i < out@.len() && #[trigger] out@[i].0 == ip by {
                let i = choose|i: int| 0 <= i < ks@.len() && #[trigger] ks@[i] == ip;
                assert(out@[i].0 == ip);
            }
        }
        out
    }

    /// Accounts one conntrack scan taken at `now_ms` (milliseconds): each flow
    /// with a LAN endpoint adds its new bytes to that client's totals and
    /// counts as one connection; rates are this scan's bytes over the time
    /// since the previous scan.
    pub fn update(&mut self, flows: &[Flow], now_ms: i64)
        requires
            old(self).wf(),
            flows@.len() <= u32::MAX,
            old(self).last_tick() matches Some(t) ==> i64::MIN <= now_ms - t <= i64::MAX,
            fits(tally_flows(start_tally(old(self).stats_map()), old(self).last_counters(), old(self).prefixes(), flows@), flows@.len() as int),
        ensures
            final(self).wf(),
            ({
                let t = tally_flows(start_tally(old(self).stats_map()), old(self).last_counters(), old(self).prefixes(), flows@);
                &&& final(self).stats_map() == stats_after(t, elapsed_of(old(self).last_tick(), now_ms))
                &&& final(self).last_counters() == t.seen
            }),
            final(self).last_tick() == Some(now_ms),
            final(self).prefixes() == old(self).prefixes(),
    {
        let elapsed: Option<i64> = match self.last_ms {
            Some(t) => {
                let d = now_ms - t;
                if d > 0 { Some(d) } else { None }
            },
            None => None,
        };
        let ghost prefixes = self.prefixes();
        let ghost last = self.last_flows@;
        let ghost old_map = self.stats_map();
        let ghost tn = tally_flows(start_tally(old_map), last, prefixes, flows@);
        // Reset this scan's rates and connection counts.
        let n0 = self.stats.len();
        let mut k: usize = 0;
        let ghost keys0 = self.stats.key_seq();
        let ghost vals0 = self.stats.val_seq();
        proof {
            self.stats.lemma_props();
        }
        while k < n0
            invariant
                self.stats.wf(),
                self.classifier == old(self).classifier,
                self.last_flows == old(self).last_flows,
                self.last_ms == old(self).last_ms,
                prefixes == old(self).prefixes(),
                last == old(self).last_counters(),
                n0 == self.stats.key_seq().len(),
                self.stats.key_seq() == keys0,
                vals0.len() == n0,
                k <= n0,
                forall|i: int| 0 <= i < k ==> #[trigger] self.stats.val_seq()[i] == (ClientStats {
                    rx_bps: 0,
                    tx_bps: 0,
                    conns_tcp: 0,
                    conns_udp: 0,
                    ..vals0[i]
                }),
                forall|i: int| k <= i < n0 ==> #[trigger] self.stats.val_seq()[i] == vals0[i],
                self.stats.val_seq().len() == n0,
            decreases n0 - k,
        {
            let v = *self.stats.val_at(k);
            self.stats.set_at(k, ClientStats { rx_bps: 0, tx_bps: 0, conns_tcp: 0, conns_udp: 0, ..v });
            k = k + 1;
        }
        proof {
            self.stats.lemma_props();
            let t0 = start_tally(old_map);
            assert(self.stats.map().dom() =~= t0.totals.dom()) by {
                assert forall|ip: IpAddress| self.stats.map().contains_key(ip) <==> t0.totals.contains_key(ip) by {
                    if self.stats.map().contains_key(ip) {
                        let i = choose|i: int| 0 <= i < n0 && #[trigger] self.stats.key_seq()[i] == ip;
                    }
                }
            }
            assert forall|ip: IpAddress| #[trigger] self.stats.map().contains_key(ip) implies self.stats.map()[ip].rx_total
                == t0.totals[ip].rx_total && self.stats.map()[ip].tx_total == t0.totals[ip].tx_total
                && self.stats.map()[ip].conns_tcp == t0.totals[ip].conns_tcp && self.stats.map()[ip].conns_udp
                == t0.totals[ip].conns_udp && self.stats.map()[ip].rx_bps == 0 && self.stats.map()[ip].tx_bps == 0 by {
                let i = choose|i: int| 0 <= i < n0 && #[trigger] self.stats.key_seq()[i] == ip;
                assert(self.stats.val_seq()[i] == self.stats.map()[ip]);
            }
        }
        // Account each flow.
        let mut interval: IpMap<(u64, u64)> = IpMap::new();
        let mut seen: HashMapWithView<u64, (u64, u64)> = HashMapWithView::new();
        let nf = flows.len();
        let mut j: usize = 0;
        assert(flows@.subrange(0, 0) =~= Seq::<Flow>::empty());
        assert(interval.map().dom() =~= Map::<IpAddress, (int, int)>::empty().dom());
        while j < nf
            invariant
                nf == flows@.len(),
                j <= nf,
                self.stats.wf(),
                interval.wf(),
                self.classifier.prefixes() == prefixes,
                self.last_flows@ == last,
                self.last_ms == old(self).last_ms,
                prefixes == old(self).prefixes(),
                last == old(self).last_counters(),
                old_map == old(self).stats_map(),
                tn == tally_flows(start_tally(old_map), last, prefixes, flows@),
                fits(tn, nf as int),
                ({
                    let tj = tally_flows(start_tally(old_map), last, prefixes, flows@.subrange(0, j as int));
                    &&& corresponds(self.stats.map(), tj.totals)
                    &&& interval_corresponds(interval.map(), tj.interval)
                    &&& seen@ == tj.seen
                }),
                forall|ip: IpAddress| #[trigger] self.stats.map().contains_key(ip) ==> self.stats.map()[ip].rx_bps == 0 && self.stats.map()[ip].tx_bps == 0,
            decreases nf - j,
        {
            let ghost tj = tally_flows(start_tally(old_map), last, prefixes, flows@.subrange(0, j as int));
            let ghost sub1 = flows@.subrange(0, j + 1);
            assert(sub1.drop_last() =~= flows@.subrange(0, j as int));
            assert(sub1.last() == flows@[j as int]);
            let ghost t1 = tally_flow(tj, last, prefixes, flows@[j as int]);
            assert(t1 == tally_flows(start_tally(old_map), last, prefixes, sub1));
            proof {
                lemma_tally_sound(old_map, last, prefixes, flows@.subrange(0, j as int));
                lemma_tally_sound(old_map, last, prefixes, sub1);
                lemma_tally_mono(start_tally(old_map), last, prefixes, flows@, j + 1);
                assert forall|ip: IpAddress| #[trigger] t1.totals.contains_key(ip) implies t1.totals[ip].rx_total <= u64::MAX
                    && t1.totals[ip].tx_total <= u64::MAX by {
                    assert(tn.totals.contains_key(ip));
                }
            }
            tally_step(
                &self.classifier,
                &self.last_flows,
                &mut self.stats,
                &mut interval,
                &mut seen,
                &flows[j],
                Ghost(tj),
                Ghost(nf as int),
                Ghost(j as int),
            );
            j = j + 1;
        }
        assert(flows@.subrange(0, nf as int) =~= flows@);
        // Rates for the clients seen in this scan.
        let ghost before_rates = self.stats.map();
        proof {
            lemma_tally_sound(old_map, last, prefixes, flows@);
        }
        match elapsed {
            Some(dt) => {
                proof {
                    interval.lemma_props();
                }
                let (ikeys, ivals) = interval.entries();
                let ni = ikeys.len();
                let mut q: usize = 0;
                while q < ni
                    invariant
                        ni == ikeys@.len(),
                        ikeys@.len() == ivals@.len(),
                        q <= ni,
                        dt > 0,
                        self.classifier.prefixes() == prefixes,
                        prefixes == old(self).prefixes(),
                        self.stats.wf(),
                        interval_corresponds(interval.map(), tn.interval),
                        tally_sound(tn, nf as int),
                        forall|i: int| 0 <= i < ikeys@.len() ==> interval.map().contains_key(#[trigger] ikeys@[i])
                            && interval.map()[ikeys@[i]] == ivals@[i],
                        forall|ip: IpAddress| interval.map().contains_key(ip) ==> exists|i: int| 0 <= i < ikeys@.len() && #[trigger] ikeys@[i] == ip,
                        forall|i1: int, i2: int| 0 <= i1 < i2 < ikeys@.len() ==> ikeys@[i1] != ikeys@[i2],
                        self.stats.map().dom() == before_rates.dom(),
                        forall|ip: IpAddress| #[trigger] self.stats.map().contains_key(ip) ==> {
                            let s = self.stats.map()[ip];
                            let b = before_rates[ip];
                            &&& s.rx_total == b.rx_total && s.tx_total == b.tx_total
                            &&& s.conns_tcp == b.conns_tcp && s.conns_udp == b.conns_udp
                            &&& (exists|i: int| 0 <= i < q && #[trigger] ikeys@[i] == ip) ==> (s.rx_bps == rate(tn.interval[ip].0, dt as int)
                                && s.tx_bps == rate(tn.interval[ip].1, dt as int))
                            &&& !(exists|i: int| 0 <= i < q && #[trigger] ikeys@[i] == ip) ==> (s.rx_bps == b.rx_bps && s.tx_bps == b.tx_bps)
                        },
                        before_rates.dom() == tn.totals.dom(),
                    decreases ni - q,
                {
                    let ip = ikeys[q];
                    let (brx, btx) = ivals[q];
                    let pos = self.stats.find(&ip);
                    assert(tn.totals.contains_key(ip));
                    match pos {
                        Some(p) => {
                            let v = *self.stats.val_at(p);
                            self.stats.set_at(p, ClientStats { rx_bps: rate_exec(brx, dt), tx_bps: rate_exec(btx, dt), ..v });
                            assert forall|x: IpAddress| #[trigger] self.stats.map().contains_key(x) implies {
                                let s = self.stats.map()[x];
                                let b = before_rates[x];
                                &&& s.rx_total == b.rx_total && s.tx_total == b.tx_total
                                &&& s.conns_tcp == b.conns_tcp && s.conns_udp == b.conns_udp
                                &&& (exists|i: int| 0 <= i < q + 1 && #[trigger] ikeys@[i] == x) ==> (s.rx_bps == rate(tn.interval[x].0, dt as int)
                                    && s.tx_bps == rate(tn.interval[x].1, dt as int))
                                &&& !(exists|i: int| 0 <= i < q + 1 && #[trigger] ikeys@[i] == x) ==> (s.rx_bps == b.rx_bps && s.tx_bps == b.tx_bps)
                            } by {
                                if x != ip {
                                    if exists|i: int| 0 <= i < q + 1 && #[trigger] ikeys@[i] == x {
                                        let i = choose|i: int| 0 <= i < q + 1 && #[trigger] ikeys@[i] == x;
                                        assert(i < q);
                                    }
                                } else {
                                    assert(ikeys@[q as int] == x);
                                }
                            }
                        },
                        None => {
                            assert(false);
                        },
                    }
                    q = q + 1;
                }
                proof {
                    let target = stats_after(tn, elapsed_of(old(self).last_tick(), now_ms));
                    assert forall|ip: IpAddress| #[trigger] self.stats.map().contains_key(ip) implies self.stats.map()[ip] == target[ip] by {
                        if tn.interval.contains_key(ip) {
                            assert(interval.map().contains_key(ip));
                            let i = choose|i: int| 0 <= i < ikeys@.len() && #[trigger] ikeys@[i] == ip;
                            assert(exists|i: int| 0 <= i < q && #[trigger] ikeys@[i] == ip);
                        } else {
                            if exists|i: int| 0 <= i < q && #[trigger] ikeys@[i] == ip {
                                let i = choose|i: int| 0 <= i < q && #[trigger] ikeys@[i] == ip;
                                assert(interval.map().contains_key(ikeys@[i]));
                            }
                        }
                    }
                    assert(self.stats.map() =~= target);
                }
            },
            None => {
                proof {
                    let target = stats_after(tn, elapsed_of(old(self).last_tick(), now_ms));
                    assert(self.stats.map() =~= target);
                }
            },
        }
        self.last_flows = seen;
        self.last_ms = Some(now_ms);
    }
}

} // verus!
