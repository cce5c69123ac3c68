use vstd::prelude::*;
use vstd::hash_map::StringHashMap;
use crate::dns_parse::{dns_query_spec, parse_dns_query};
use crate::names::NameTable;

verus! {

broadcast use vstd::hash_map::group_hash_map_axioms;

/// How many distinct domains one flush window tracks; later new domains are
/// counted under the shared overflow name.
pub const CARDINALITY_CAP: usize = 5000;

/// The name under which domains beyond the cap are counted.
pub open spec fn other_name() -> Seq<char> {
    "__other__"@
}

/// The domain a query is counted under, given the domains seen so far.
pub open spec fn counted_domain(seen: Set<Seq<char>>, domain: Seq<char>) -> Seq<char> {
    if seen.contains(domain) {
        domain
    } else if seen.len() >= CARDINALITY_CAP {
        other_name()
    } else {
        domain
    }
}

/// The domains seen after a query for `domain`: a new domain is tracked while
/// there is room.
pub open spec fn seen_after(seen: Set<Seq<char>>, domain: Seq<char>) -> Set<Seq<char>> {
    if !seen.contains(domain) && seen.len() < CARDINALITY_CAP { seen.insert(domain) } else { seen }
}

/// Within one window the tracked domains never exceed the cap, and a domain
/// that is already tracked is always counted under its own name.
pub proof fn lemma_cardinality_cap(seen: Set<Seq<char>>, domain: Seq<char>)
    requires
        seen.finite(),
        seen.len() <= CARDINALITY_CAP,
    ensures
        seen_after(seen, domain).finite(),
        seen_after(seen, domain).len() <= CARDINALITY_CAP,
        seen.contains(domain) ==> counted_domain(seen, domain) == domain,
        counted_domain(seen, domain) == domain || counted_domain(seen, domain) == other_name(),
{
}

/// Query counts per client and domain for one flush window.
pub struct CaptureState {
    keys: Vec<(String, String)>,
    vals: Vec<u64>,
    seen_domains: StringHashMap<()>,
    by_domain: StringHashMap<Vec<usize>>,
}

spec fn count_map(keys: Seq<(String, String)>, vals: Seq<u64>, n: nat) -> Map<(Seq<char>, Seq<char>), u64>
    decreases n,
{
    if n == 0 {
        Map::empty()
    } else {
        count_map(keys, vals, (n - 1) as nat).insert((keys[n - 1].0@, keys[n - 1].1@), vals[n - 1])
    }
}

spec fn key_of(k: (String, String)) -> (Seq<char>, Seq<char>) {
    (k.0@, k.1@)
}

spec fn distinct(keys: Seq<(String, String)>) -> bool {
    forall|i: int, j: int| 0 <= i < j < keys.len() ==> key_of(keys[i]) != key_of(keys[j])
}

proof fn lemma_count_map_dom(keys: Seq<(String, String)>, vals: Seq<u64>, n: nat, k: (Seq<char>, Seq<char>))
    requires
        n <= keys.len(),
    ensures
        count_map(keys, vals, n).contains_key(k) <==> exists|i: int| 0 <= i < n && key_of(keys[i]) == k,
    decreases n,
{
    if n > 0 {
        lemma_count_map_dom(keys, vals, (n - 1) as nat, k);
        if count_map(keys, vals, n).contains_key(k) && key_of(keys[n - 1]) != k {
            let i = choose|i: int| 0 <= i < n - 1 && key_of(keys[i]) == k;
            assert(0 <= i < n && key_of(keys[i]) == k);
        }
    }
}

proof fn lemma_count_map_get(keys: Seq<(String, String)>, vals: Seq<u64>, n: nat, i: int)
    requires
        n <= keys.len(),
        distinct(keys),
        0 <= i < n,
    ensures
        count_map(keys, vals, n).contains_key(key_of(keys[i])),
        count_map(keys, vals, n)[key_of(keys[i])] == vals[i],
    decreases n,
{
    if i < n - 1 {
        lemma_count_map_get(keys, vals, (n - 1) as nat, i);
    }
}

proof fn lemma_count_map_update(keys: Seq<(String, String)>, vals: Seq<u64>, n: nat, i: int, x: u64)
    requires
        n <= keys.len(),
        n <= vals.len(),
        distinct(keys),
        0 <= i < n,
    ensures
        count_map(keys, vals.update(i, x), n) == count_map(keys, vals, n).insert(key_of(keys[i]), x),
    decreases n,
{
    if i < n - 1 {
        lemma_count_map_update(keys, vals, (n - 1) as nat, i, x);
        assert(count_map(keys, vals.update(i, x), n) =~= count_map(keys, vals, n).insert(key_of(keys[i]), x));
    } else {
        lemma_count_map_vals_prefix(keys, vals, vals.update(i, x), (n - 1) as nat);
        assert(count_map(keys, vals.update(i, x), n) =~= count_map(keys, vals, n).insert(key_of(keys[i]), x));
    }
}

proof fn lemma_count_map_vals_prefix(keys: Seq<(String, String)>, a: Seq<u64>, b: Seq<u64>, n: nat)
    requires
        n <= a.len(),
        n <= b.len(),
        forall|j: int| 0 <= j < n ==> a[j] == b[j],
    ensures
        count_map(keys, a, n) == count_map(keys, b, n),
    decreases n,
{
    if n > 0 {
        lemma_count_map_vals_prefix(keys, a, b, (n - 1) as nat);
    }
}

proof fn lemma_count_map_keys_prefix(ka: Seq<(String, String)>, kb: Seq<(String, String)>, vals: Seq<u64>, n: nat)
    requires
        n <= ka.len(),
        n <= kb.len(),
        forall|j: int| 0 <= j < n ==> ka[j] == kb[j],
    ensures
        count_map(ka, vals, n) == count_map(kb, vals, n),
    decreases n,
{
    if n > 0 {
        lemma_count_map_keys_prefix(ka, kb, vals, (n - 1) as nat);
    }
}

impl CaptureState {
    /// The state's internal invariant.
    pub closed spec fn wf(self) -> bool {
        &&& self.keys@.len() == self.vals@.len()
        &&& distinct(self.keys@)
        &&& self.seen_domains@.dom().finite()
        &&& self.seen_domains@.dom().len() <= CARDINALITY_CAP
        &&& forall|i: int| 0 <= i < self.vals@.len() ==> #[trigger] self.vals@[i] >= 1
        &&& forall|d: Seq<char>| #[trigger] self.by_domain@.contains_key(d) ==> forall|u: int|
            0 <= u < self.by_domain@[d]@.len() ==> (#[trigger] self.by_domain@[d]@[u] as int) < self.keys@.len()
                && self.keys@[self.by_domain@[d]@[u] as int].1@ == d
        &&& forall|e: int| 0 <= e < self.keys@.len() ==> self.by_domain@.contains_key(#[trigger] self.keys@[e].1@)
            && self.by_domain@[self.keys@[e].1@]@.contains(e as usize)
    }

    /// Whatever was recorded, the window tracks finitely many domains, at
    /// most `CARDINALITY_CAP`, and every count it holds is at least 1.
    pub proof fn lemma_window_bounds(&self)
        requires
            self.wf(),
        ensures
            self.seen().finite(),
            self.seen().len() <= CARDINALITY_CAP,
            forall|k: (Seq<char>, Seq<char>)| #[trigger] self.counts().contains_key(k) ==> self.counts()[k] >= 1,
    {
        assert forall|k: (Seq<char>, Seq<char>)| #[trigger] self.counts().contains_key(k) implies self.counts()[k] >= 1 by {
            lemma_count_map_dom(self.keys@, self.vals@, self.keys@.len(), k);
            let i = choose|i: int| 0 <= i < self.keys@.len() && key_of(self.keys@[i]) == k;
            lemma_count_map_get(self.keys@, self.vals@, self.keys@.len(), i);
        }
    }

    /// Whether every count is below `u64::MAX`, so one more query can be counted.
    pub fn counts_below_max(&self) -> (r: bool)
        requires
            self.wf(),
        ensures
            r == (forall|k: (Seq<char>, Seq<char>)| #[trigger] self.counts().contains_key(k) ==> self.counts()[k] < u64::MAX),
    {
        let n = self.vals.len();
        let mut i: usize = 0;
        while i < n
            invariant
                self.wf(),
                n == self.vals@.len(),
                i <= n,
                forall|j: int| 0 <= j < i ==> #[trigger] self.vals@[j] < u64::MAX,
            decreases n - i,
        {
            if self.vals[i] == u64::MAX {
                proof {
                    lemma_count_map_get(self.keys@, self.vals@, self.keys@.len(), i as int);
                    let k = key_of(self.keys@[i as int]);
                    assert(self.counts().contains_key(k) && !(self.counts()[k] < u64::MAX));
                }
                return false;
            }
            i = i + 1;
        }
        proof {
            assert forall|k: (Seq<char>, Seq<char>)| #[trigger] self.counts().contains_key(k) implies self.counts()[k] < u64::MAX by {
                lemma_count_map_dom(self.keys@, self.vals@, self.keys@.len(), k);
                let j = choose|j: int| 0 <= j < self.keys@.len() && key_of(self.keys@[j]) == k;
                lemma_count_map_get(self.keys@, self.vals@, self.keys@.len(), j);
            }
        }
        true
    }

    /// The query count per (client MAC, domain).
    pub closed spec fn counts(self) -> Map<(Seq<char>, Seq<char>), u64> {
        count_map(self.keys@, self.vals@, self.keys@.len())
    }

    /// The domains tracked in this window.
    pub closed spec fn seen(self) -> Set<Seq<char>> {
        self.seen_domains@.dom()
    }

    /// An empty window.
    pub fn new() -> (r: Self)
        ensures
            r.wf(),
            r.counts() == Map::<(Seq<char>, Seq<char>), u64>::empty(),
            r.seen() == Set::<Seq<char>>::empty(),
    {
        let r = CaptureState {
            keys: Vec::new(),
            vals: Vec::new(),
            seen_domains: StringHashMap::new(),
            by_domain: StringHashMap::new(),
        };
        assert(r.seen() =~= Set::<Seq<char>>::empty());
        r
    }

    /// Counts one query of `domain` by `mac`. A domain not yet tracked is
    /// tracked while fewer than `CARDINALITY_CAP` are; beyond that, new
    /// domains are counted under `"__other__"`.
    pub fn record(&mut self, mac: String, domain: String)
        requires
            old(self).wf(),
            forall|k: (Seq<char>, Seq<char>)| old(self).counts().contains_key(k) ==> #[trigger] old(self).counts()[k] < u64::MAX,
        ensures
            final(self).wf(),
            final(self).seen() == seen_after(old(self).seen(), domain@),
            ({
                let key = (mac@, counted_domain(old(self).seen(), domain@));
                final(self).counts() == old(self).counts().insert(
                    key,
                    if old(self).counts().contains_key(key) { (old(self).counts()[key] + 1) as u64 } else { 1 },
                )
            }),
    {
        let ghost seen0 = self.seen();
        let d = if self.seen_domains.contains_key(domain.as_str()) {
            domain
        } else if self.seen_domains.len() >= CARDINALITY_CAP {
            "__other__".to_owned()
        } else {
            self.seen_domains.insert(domain.clone(), ());
            assert(self.seen() =~= seen0.insert(domain@));
            domain
        };
        assert(self.seen() =~= seen_after(seen0, domain@));
        assert(d@ == counted_domain(seen0, domain@));
        let n = self.keys.len();
        let list: Vec<usize> = match self.by_domain.get(d.as_str()) {
            Some(l) => l.clone(),
            None => Vec::new(),
        };
        let ghost listed = if self.by_domain@.contains_key(d@) { self.by_domain@[d@]@ } else { Seq::<usize>::empty() };
        assert(list@ == listed);
        let mut t: usize = 0;
        while t < list.len() && !(self.keys[list[t]].0 == mac)
            invariant
                self.wf(),
                n == self.keys@.len(),
                list@ == listed,
                forall|u: int| 0 <= u < list@.len() ==> (#[trigger] list@[u] as int) < n && self.keys@[list@[u] as int].1@ == d@,
                t <= list@.len(),
                forall|u: int| 0 <= u < t ==> self.keys@[#[trigger] list@[u] as int].0@ != mac@,
            decreases list@.len() - t,
        {
            t = t + 1;
        }
        let i: usize = if t < list.len() { list[t] } else { n };
        proof {
            if i < n {
                assert(self.keys@[list@[t as int] as int].1@ == d@);
                assert(key_of(self.keys@[i as int]) == (mac@, d@));
            }
            if i == n {
                assert forall|j: int| 0 <= j < n implies key_of(self.keys@[j]) != (mac@, d@) by {
                    if key_of(self.keys@[j]) == (mac@, d@) {
                        assert(self.by_domain@.contains_key(self.keys@[j].1@));
                        assert(self.by_domain@[d@]@.contains(j as usize));
                        let u = choose|u: int| 0 <= u < listed.len() && listed[u] == j as usize;
                        assert(self.keys@[list@[u] as int].0@ != mac@);
                    }
                }
            }
        }
        let ghost key = (mac@, d@);
        let ghost m0 = self.counts();
        if i < n {
            proof {
                lemma_count_map_get(self.keys@, self.vals@, n as nat, i as int);
            }
            let c = self.vals[i];
            assert(m0[key] == c);
            assert(m0 == old(self).counts());
            assert(old(self).counts().contains_key(key));
            assert(old(self).counts()[key] < u64::MAX);
            let ghost vals0 = self.vals@;
            self.vals.set(i, c + 1);
            proof {
                lemma_count_map_update(self.keys@, vals0, n as nat, i as int, (c + 1) as u64);
            }
        } else {
            proof {
                lemma_count_map_dom(self.keys@, self.vals@, n as nat, key);
            }
            let ghost keys0 = self.keys@;
            let ghost vals0 = self.vals@;
            let ghost index0 = self.by_domain@;
            let mut grown = list;
            grown.push(n);
            self.by_domain.insert(d.clone(), grown);
            self.keys.push((mac, d));
            self.vals.push(1);
            proof {
                assert forall|dd: Seq<char>| #[trigger] self.by_domain@.contains_key(dd) implies forall|u: int|
                    0 <= u < self.by_domain@[dd]@.len() ==> (#[trigger] self.by_domain@[dd]@[u] as int) < self.keys@.len()
                        && self.keys@[self.by_domain@[dd]@[u] as int].1@ == dd by {
                    assert forall|u: int| 0 <= u < self.by_domain@[dd]@.len() implies (#[trigger] self.by_domain@[dd]@[u] as int)
                        < self.keys@.len() && self.keys@[self.by_domain@[dd]@[u] as int].1@ == dd by {
                        let e = self.by_domain@[dd]@[u] as int;
                        if dd == key.1 {
                            if u < listed.len() {
                                assert(self.keys@[e] == keys0[e]);
                            }
                        } else {
                            assert(index0.contains_key(dd));
                            assert(index0[dd]@[u] == self.by_domain@[dd]@[u]);
                            assert(self.keys@[e] == keys0[e]);
                        }
                    }
                }
                assert forall|e: int| 0 <= e < self.keys@.len() implies self.by_domain@.contains_key(#[trigger] self.keys@[e].1@)
                    && self.by_domain@[self.keys@[e].1@]@.contains(e as usize) by {
                    if e < n {
                        assert(self.keys@[e] == keys0[e]);
                        assert(index0.contains_key(keys0[e].1@) && index0[keys0[e].1@]@.contains(e as usize));
                        if keys0[e].1@ == key.1 {
                            let u = choose|u: int| 0 <= u < listed.len() && listed[u] == e as usize;
                            assert(self.by_domain@[key.1]@[u] == e as usize);
                        }
                    } else {
                        assert(self.by_domain@[key.1]@[listed.len() as int] == n);
                    }
                }
            }
            proof {
                lemma_count_map_vals_prefix(self.keys@, vals0, self.vals@, n as nat);
                lemma_count_map_keys_prefix(keys0, self.keys@, vals0, n as nat);
                assert(self.counts() == m0.insert(key, 1));
            }
        }
    }

    /// Hands out every (client MAC, domain, count), in no particular order,
    /// and starts a fresh window.
    pub fn drain(&mut self) -> (out: Vec<(String, String, u64)>)
        requires
            old(self).wf(),
        ensures
            final(self).wf(),
            final(self).counts() == Map::<(Seq<char>, Seq<char>), u64>::empty(),
            final(self).seen() == Set::<Seq<char>>::empty(),
            out@.len() == old(self).counts().dom().len(),
            forall|i: int| 0 <= i < out@.len() ==> {
                let e = #[trigger] out@[i];
                old(self).counts().contains_key((e.0@, e.1@)) && old(self).counts()[(e.0@, e.1@)] == e.2
            },
            forall|k: (Seq<char>, Seq<char>)| old(self).counts().contains_key(k) ==> exists|i: int|
                0 <= i < out@.len() && (#[trigger] out@[i].0@, out@[i].1@) == k,
            forall|i: int, j: int| 0 <= i < j < out@.len() ==> (out@[i].0@, out@[i].1@) != (out@[j].0@, out@[j].1@),
    {
        let ghost m0 = self.counts();
        let ghost keys0 = self.keys@;
        let ghost vals0 = self.vals@;
        let n = self.keys.len();
        let mut keys = Vec::new();
        let mut vals = Vec::new();
        std::mem::swap(&mut keys, &mut self.keys);
        std::mem::swap(&mut vals, &mut self.vals);
        let mut out: Vec<(String, String, u64)> = Vec::new();
        let mut i: usize = 0;
        while i < n
            invariant
                n == keys0.len(),
                keys@ == keys0,
                vals@ == vals0,
                vals0.len() == n,
                i <= n,
                out@.len() == i,
                forall|j: int| 0 <= j < i ==> (#[trigger] out@[j].0@, out@[j].1@) == key_of(keys0[j]) && out@[j].2 == vals0[j],
            decreases n - i,
        {
            let a = keys[i].0.clone();
            let b = keys[i].1.clone();
            out.push((a, b, vals[i]));
            i = i + 1;
        }
        self.seen_domains.clear();
        self.by_domain.clear();
        proof {
            assert(self.counts() =~= Map::<(Seq<char>, Seq<char>), u64>::empty());
            assert(self.seen() =~= Set::<Seq<char>>::empty());
            assert forall|i: int| 0 <= i < out@.len() implies {
                let e = #[trigger] out@[i];
                m0.contains_key((e.0@, e.1@)) && m0[(e.0@, e.1@)] == e.2
            } by {
                lemma_count_map_get(keys0, vals0, n as nat, i);
            }
            assert forall|k: (Seq<char>, Seq<char>)| m0.contains_key(k) implies exists|i: int|
                0 <= i < out@.len() && (#[trigger] out@[i].0@, out@[i].1@) == k by {
                lemma_count_map_dom(keys0, vals0, n as nat, k);
                let i = choose|i: int| 0 <= i < n && key_of(keys0[i]) == k;
                assert((out@[i].0@, out@[i].1@) == k);
            }
            lemma_count_map_len(keys0, vals0, n as nat);
        }
        out
    }
}

proof fn lemma_count_map_len(keys: Seq<(String, String)>, vals: Seq<u64>, n: nat)
    requires
        n <= keys.len(),
        distinct(keys),
    ensures
        count_map(keys, vals, n).dom().len() == n,
        count_map(keys, vals, n).dom().finite(),
    decreases n,
{
    if n > 0 {
        lemma_count_map_len(keys, vals, (n - 1) as nat);
        lemma_count_map_dom(keys, vals, (n - 1) as nat, key_of(keys[n - 1]));
    }
}

/// The counts after one query of `domain` by `mac`, given the domains seen so far.
pub open spec fn counts_after(
    counts: Map<(Seq<char>, Seq<char>), u64>,
    seen: Set<Seq<char>>,
    mac: Seq<char>,
    domain: Seq<char>,
) -> Map<(Seq<char>, Seq<char>), u64> {
    let key = (mac, counted_domain(seen, domain));
    counts.insert(key, if counts.contains_key(key) { (counts[key] + 1) as u64 } else { 1 })
}

/// Counts the DNS query that a captured packet carries, when it parses and
/// its source address belongs to a client whose MAC is known; any other
/// packet leaves the window as it was.
pub fn observe_packet(state: &mut CaptureState, names: &NameTable, packet: &[u8])
    requires
        old(state).wf(),
        names.wf(),
        forall|k: (Seq<char>, Seq<char>)| old(state).counts().contains_key(k) ==> #[trigger] old(state).counts()[k] < u64::MAX,
    ensures
        final(state).wf(),
        match dns_query_spec(packet@) {
            Some(q) => if names.names().ip_to_mac.contains_key(q.0) {
                &&& final(state).counts() == counts_after(
                    old(state).counts(),
                    old(state).seen(),
                    names.names().ip_to_mac[q.0],
                    q.1,
                )
                &&& final(state).seen() == seen_after(old(state).seen(), q.1)
            } else {
                final(state).counts() == old(state).counts() && final(state).seen() == old(state).seen()
            },
            None => final(state).counts() == old(state).counts() && final(state).seen() == old(state).seen(),
        },
{
    if let Some((ip, domain)) = parse_dns_query(packet) {
        if let Some(mac) = names.mac_for(ip) {
            state.record(mac.to_owned(), domain);
        }
    }
}

/// Whether a flush window of `flush_secs` seconds that began at `last_flush`
/// has run out at `now`.
pub fn flush_due(now: i64, last_flush: i64, flush_secs: u64) -> (r: bool)
    ensures
        r == (now - last_flush >= flush_secs as i64),
{
    let window = flush_secs as i64;
    (now as i128) - (last_flush as i128) >= window as i128
}

/// The start of the UTC day of `now` (in seconds since the epoch), as
/// Rust's remainder gives it: `now - now % 86400`.
pub fn day_start(now: i64) -> (r: i64)
    ensures
        r == now - (if now >= 0 { (now as int) % 86400 } else { -((-(now as int)) % 86400) }),
{
    now - now % 86400
}

} // verus!
