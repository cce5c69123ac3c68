use vstd::prelude::*;
use crate::account::ClientStats;
use crate::ip::{ip_text, ip_to_string, IpAddress};
use crate::names::{NameTable, Names};

verus! {

/// One client as the control plane shows it: identity joined with names,
/// rates in bytes per second and byte totals.
#[derive(Debug, Clone, PartialEq)]
pub struct ClientView {
    pub mac: String,
    pub ip: String,
    pub host: String,
    pub rx_bps: u64,
    pub tx_bps: u64,
    pub rx_total: u64,
    pub tx_total: u64,
    pub conns_tcp: u32,
    pub conns_udp: u32,
}

/// A view's contents.
pub struct ViewModel {
    pub mac: Seq<char>,
    pub ip: Seq<char>,
    pub host: Seq<char>,
    pub rx_bps: u64,
    pub tx_bps: u64,
    pub rx_total: u64,
    pub tx_total: u64,
    pub conns_tcp: u32,
    pub conns_udp: u32,
}

pub open spec fn view_model(v: ClientView) -> ViewModel {
    ViewModel {
        mac: v.mac@,
        ip: v.ip@,
        host: v.host@,
        rx_bps: v.rx_bps,
        tx_bps: v.tx_bps,
        rx_total: v.rx_total,
        tx_total: v.tx_total,
        conns_tcp: v.conns_tcp,
        conns_udp: v.conns_udp,
    }
}

/// The view of a client: its MAC (or its address text when no MAC is known),
/// its address text, the MAC's host name (or empty), and its statistics.
pub open spec fn client_model(ip: IpAddress, s: ClientStats, n: Names) -> ViewModel {
    let known = n.ip_to_mac.contains_key(ip);
    let mac = if known { n.ip_to_mac[ip] } else { ip_text(ip) };
    let host = if known && n.mac_to_host.contains_key(n.ip_to_mac[ip]) {
        n.mac_to_host[n.ip_to_mac[ip]]
    } else {
        Seq::empty()
    };
    ViewModel {
        mac,
        ip: ip_text(ip),
        host,
        rx_bps: s.rx_bps,
        tx_bps: s.tx_bps,
        rx_total: s.rx_total,
        tx_total: s.tx_total,
        conns_tcp: s.conns_tcp,
        conns_udp: s.conns_udp,
    }
}

/// A view's total speed.
pub open spec fn speed(v: ViewModel) -> int {
    v.rx_bps + v.tx_bps
}

/// `s` with `x` inserted after every view at least as fast.
pub open spec fn insert_by_speed(s: Seq<ViewModel>, x: ViewModel) -> Seq<ViewModel>
    decreases s.len(),
{
    if s.len() == 0 {
        seq![x]
    } else if speed(s[0]) < speed(x) {
        seq![x] + s
    } else {
        seq![s[0]] + insert_by_speed(s.drop_first(), x)
    }
}

/// `s` ordered by total speed, fastest first, ties in input order.
pub open spec fn sort_by_speed(s: Seq<ViewModel>) -> Seq<ViewModel>
    decreases s.len(),
{
    if s.len() == 0 {
        Seq::empty()
    } else {
        insert_by_speed(sort_by_speed(s.drop_last()), s.last())
    }
}

proof fn lemma_insert_at(s: Seq<ViewModel>, x: ViewModel, p: int)
    requires
        0 <= p <= s.len(),
        forall|i: int| 0 <= i < p ==> speed(#[trigger] s[i]) >= speed(x),
        p < s.len() ==> speed(s[p]) < speed(x),
    ensures
        s.insert(p, x) == insert_by_speed(s, x),
    decreases s.len(),
{
    if s.len() == 0 {
        assert(s.insert(p, x) =~= seq![x]);
    } else if p == 0 {
        assert(s.insert(p, x) =~= seq![x] + s);
    } else {
        let t = s.drop_first();
        assert forall|i: int| 0 <= i < p - 1 implies speed(#[trigger] t[i]) >= speed(x) by {
            assert(t[i] == s[i + 1]);
        }
        lemma_insert_at(t, x, p - 1);
        assert(s.insert(p, x) =~= seq![s[0]] + t.insert(p - 1, x));
    }
}

/// Whether total speeds never increase along `s`.
pub open spec fn speed_descending(s: Seq<ViewModel>) -> bool {
    forall|i: int, j: int| #![trigger s[i], s[j]] 0 <= i < j < s.len() ==> speed(s[j]) <= speed(s[i])
}

/// Inserting into a descending sequence keeps it descending and adds exactly `x`.
proof fn lemma_insert_by_speed_sorted(s: Seq<ViewModel>, x: ViewModel)
    requires
        speed_descending(s),
    ensures
        speed_descending(insert_by_speed(s, x)),
        insert_by_speed(s, x).len() == s.len() + 1,
        insert_by_speed(s, x).to_multiset() == s.to_multiset().insert(x),
    decreases s.len(),
{
    broadcast use vstd::seq_lib::group_to_multiset_ensures;
    if s.len() == 0 {
        assert(seq![x] =~= Seq::<ViewModel>::empty().push(x));
    } else if speed(s[0]) < speed(x) {
        let r = seq![x] + s;
        assert(r =~= s.insert(0, x));
        assert forall|i: int, j: int| #![trigger r[i], r[j]] 0 <= i < j < r.len() implies speed(r[j]) <= speed(r[i]) by {
            if i > 0 {
                assert(r[i] == s[i - 1]);
                assert(r[j] == s[j - 1]);
            } else {
                assert(r[j] == s[j - 1]);
                assert(speed(s[j - 1]) <= speed(s[0]));
            }
        }
    } else {
        let t = s.drop_first();
        assert(speed_descending(t)) by {
            assert forall|i: int, j: int| #![trigger t[i], t[j]] 0 <= i < j < t.len() implies speed(t[j]) <= speed(t[i]) by {
                assert(t[i] == s[i + 1]);
                assert(t[j] == s[j + 1]);
            }
        }
        lemma_insert_by_speed_sorted(t, x);
        let it = insert_by_speed(t, x);
        let r = seq![s[0]] + it;
        assert forall|j: int| 0 <= j < it.len() implies speed(#[trigger] it[j]) <= speed(s[0]) by {
            assert(it.to_multiset().count(it[j]) > 0);
            assert(t.to_multiset().insert(x).count(it[j]) > 0);
            if it[j] != x {
                assert(t.to_multiset().count(it[j]) > 0);
                assert(t.contains(it[j]));
                let k = choose|k: int| 0 <= k < t.len() && t[k] == it[j];
                assert(t[k] == s[k + 1]);
            }
        }
        assert forall|i: int, j: int| #![trigger r[i], r[j]] 0 <= i < j < r.len() implies speed(r[j]) <= speed(r[i]) by {
            assert(r[j] == it[j - 1]);
            if i > 0 {
                assert(r[i] == it[i - 1]);
            }
        }
        assert(s =~= seq![s[0]] + t);
        vstd::seq_lib::lemma_multiset_commutative(seq![s[0]], it);
        vstd::seq_lib::lemma_multiset_commutative(seq![s[0]], t);
        assert(r.to_multiset() =~= s.to_multiset().insert(x));
    }
}

/// Views come out ordered by total speed, fastest first, and they are
/// exactly the views that went in.
pub proof fn lemma_sort_by_speed(s: Seq<ViewModel>)
    ensures
        speed_descending(sort_by_speed(s)),
        sort_by_speed(s).len() == s.len(),
        sort_by_speed(s).to_multiset() == s.to_multiset(),
    decreases s.len(),
{
    broadcast use vstd::seq_lib::group_to_multiset_ensures;
    if s.len() > 0 {
        lemma_sort_by_speed(s.drop_last());
        lemma_insert_by_speed_sorted(sort_by_speed(s.drop_last()), s.last());
        assert(s =~= s.drop_last().push(s.last()));
    }
}

/// Views of all clients, joined with the name tables, fastest first (ties in
/// the order the clients come in).
pub fn build_snapshot(stats: &[(IpAddress, ClientStats)], names: &NameTable) -> (r: Vec<ClientView>)
    requires
        names.wf(),
        stats@.len() >= 2 ==> forall|i: int| 0 <= i < stats@.len() ==> #[trigger] stats@[i].1.rx_bps + stats@[i].1.tx_bps <= u64::MAX,
    ensures
        r@.map_values(|v: ClientView| view_model(v)) == sort_by_speed(
            stats@.map_values(|e: (IpAddress, ClientStats)| client_model(e.0, e.1, names.names())),
        ),
        r@.len() == stats@.len(),
        forall|i: int, j: int| 0 <= i < j < r@.len() ==> r@[i].rx_bps + r@[i].tx_bps >= r@[j].rx_bps + r@[j].tx_bps,
{
    let n = stats.len();
    let ghost models = stats@.map_values(|e: (IpAddress, ClientStats)| client_model(e.0, e.1, names.names()));
    let mut views: Vec<ClientView> = Vec::new();
    let mut i: usize = 0;
    assert(views@.map_values(|v: ClientView| view_model(v)) =~= Seq::<ViewModel>::empty());
    while i < n
        invariant
            n == stats@.len(),
            i <= n,
            names.wf(),
            models == stats@.map_values(|e: (IpAddress, ClientStats)| client_model(e.0, e.1, names.names())),
            n >= 2 ==> forall|k: int| 0 <= k < n ==> #[trigger] stats@[k].1.rx_bps + stats@[k].1.tx_bps <= u64::MAX,
            views@.map_values(|v: ClientView| view_model(v)) == sort_by_speed(models.subrange(0, i as int)),
            forall|k: int| 0 <= k < views@.len() ==> n >= 2 ==> #[trigger] views@[k].rx_bps + views@[k].tx_bps <= u64::MAX,
            views@.len() == i,
        decreases n - i,
    {
        let (ip, s) = stats[i];
        let ip_str = ip_to_string(&ip);
        let (mac, host) = match names.mac_for(ip) {
            Some(m) => {
                let h = match names.host_for_mac(m) {
                    Some(h) => h.to_owned(),
                    None => String::new(),
                };
                (m.to_owned(), h)
            },
            None => (ip_to_string(&ip), String::new()),
        };
        let v = ClientView {
            mac,
            ip: ip_str,
            host,
            rx_bps: s.rx_bps,
            tx_bps: s.tx_bps,
            rx_total: s.rx_total,
            tx_total: s.tx_total,
            conns_tcp: s.conns_tcp,
            conns_udp: s.conns_udp,
        };
        assert(view_model(v) == models[i as int]);
        let ghost sorted = views@.map_values(|v: ClientView| view_model(v));
        let mut p: usize = 0;
        if views.len() > 0 {
            assert(n >= 2);
            assert(stats@[i as int].1.rx_bps + stats@[i as int].1.tx_bps <= u64::MAX);
            let key = v.rx_bps + v.tx_bps;
            while p < views.len() && views[p].rx_bps + views[p].tx_bps >= key
                invariant
                    p <= views@.len(),
                    key == speed(view_model(v)),
                    sorted == views@.map_values(|v: ClientView| view_model(v)),
                    forall|k: int| 0 <= k < views@.len() ==> n >= 2 ==> #[trigger] views@[k].rx_bps + views@[k].tx_bps <= u64::MAX,
                    n >= 2,
                    forall|j: int| 0 <= j < p ==> speed(#[trigger] sorted[j]) >= speed(view_model(v)),
                decreases views@.len() - p,
            {
                assert(sorted[p as int] == view_model(views@[p as int]));
                p = p + 1;
            }
            if p < views.len() {
                assert(sorted[p as int] == view_model(views@[p as int]));
            }
        }
        proof {
            lemma_insert_at(sorted, view_model(v), p as int);
        }
        views.insert(p, v);
        assert(views@.map_values(|v: ClientView| view_model(v)) =~= sorted.insert(p as int, view_model(v)));
        assert(models.subrange(0, i + 1).drop_last() =~= models.subrange(0, i as int));
        i = i + 1;
    }
    assert(models.subrange(0, n as int) =~= models);
    proof {
        let vm = views@.map_values(|v: ClientView| view_model(v));
        lemma_sort_by_speed(models);
        assert forall|a: int, b: int| 0 <= a < b < views@.len() implies views@[a].rx_bps + views@[a].tx_bps
            >= views@[b].rx_bps + views@[b].tx_bps by {
            assert(vm[a] == view_model(views@[a]));
            assert(vm[b] == view_model(views@[b]));
            assert(speed(vm[b]) <= speed(vm[a]));
        }
    }
    views
}

} // verus!
