use vstd::prelude::*;
use vstd::hash_map::HashMapWithView;
use crate::ip::IpAddress;

verus! {

broadcast use vstd::std_specs::hash::group_hash_axioms;

/// A map keyed by address that keeps its entries in insertion order, with
/// hash indexes from IPv4 and IPv6 address numbers to entry positions.
pub struct IpMap<V> {
    keys: Vec<IpAddress>,
    vals: Vec<V>,
    v4_index: HashMapWithView<u32, usize>,
    v6_index: HashMapWithView<u128, usize>,
}

/// Whether the indexes point every address number to its entry, and only those.
pub open spec fn indexes_agree(keys: Seq<IpAddress>, v4: Map<u32, usize>, v6: Map<u128, usize>) -> bool {
    &&& forall|x: u32| #[trigger] v4.contains_key(x) ==> v4[x] < keys.len() && keys[v4[x] as int] == IpAddress::V4(x)
    &&& forall|x: u128| #[trigger] v6.contains_key(x) ==> v6[x] < keys.len() && keys[v6[x] as int] == IpAddress::V6(x)
    &&& forall|i: int| 0 <= i < keys.len() ==> match #[trigger] keys[i] {
        IpAddress::V4(x) => v4.contains_key(x),
        IpAddress::V6(x) => v6.contains_key(x),
    }
}

/// The map that entries `0..n` describe (later entries win, but keys are distinct).
pub open spec fn entries_map<V>(keys: Seq<IpAddress>, vals: Seq<V>, n: nat) -> Map<IpAddress, V>
    decreases n,
{
    if n == 0 {
        Map::empty()
    } else {
        entries_map(keys, vals, (n - 1) as nat).insert(keys[n - 1], vals[n - 1])
    }
}

pub open spec fn distinct_ips(keys: Seq<IpAddress>) -> bool {
    forall|i: int, j: int| 0 <= i < j < keys.len() ==> keys[i] != keys[j]
}

pub proof fn lemma_entries_dom<V>(keys: Seq<IpAddress>, vals: Seq<V>, n: nat, k: IpAddress)
    requires
        n <= keys.len(),
    ensures
        entries_map(keys, vals, n).contains_key(k) <==> exists|i: int| 0 <= i < n && keys[i] == k,
    decreases n,
{
    if n > 0 {
        lemma_entries_dom(keys, vals, (n - 1) as nat, k);
        if entries_map(keys, vals, n).contains_key(k) && keys[n - 1] != k {
            let i = choose|i: int| 0 <= i < n - 1 && keys[i] == k;
            assert(0 <= i < n && keys[i] == k);
        }
    }
}

pub proof fn lemma_entries_get<V>(keys: Seq<IpAddress>, vals: Seq<V>, n: nat, i: int)
    requires
        n <= keys.len(),
        distinct_ips(keys),
        0 <= i < n,
    ensures
        entries_map(keys, vals, n).contains_key(keys[i]),
        entries_map(keys, vals, n)[keys[i]] == vals[i],
    decreases n,
{
    if i < n - 1 {
        lemma_entries_get(keys, vals, (n - 1) as nat, i);
    }
}

proof fn lemma_entries_vals_prefix<V>(keys: Seq<IpAddress>, a: Seq<V>, b: Seq<V>, n: nat)
    requires
        n <= a.len(),
        n <= b.len(),
        forall|j: int| 0 <= j < n ==> a[j] == b[j],
    ensures
        entries_map(keys, a, n) == entries_map(keys, b, n),
    decreases n,
{
    if n > 0 {
        lemma_entries_vals_prefix(keys, a, b, (n - 1) as nat);
    }
}

proof fn lemma_entries_keys_prefix<V>(ka: Seq<IpAddress>, kb: Seq<IpAddress>, vals: Seq<V>, n: nat)
    requires
        n <= ka.len(),
        n <= kb.len(),
        forall|j: int| 0 <= j < n ==> ka[j] == kb[j],
    ensures
        entries_map(ka, vals, n) == entries_map(kb, vals, n),
    decreases n,
{
    if n > 0 {
        lemma_entries_keys_prefix(ka, kb, vals, (n - 1) as nat);
    }
}

proof fn lemma_entries_update<V>(keys: Seq<IpAddress>, vals: Seq<V>, n: nat, i: int, x: V)
    requires
        n <= keys.len(),
        n <= vals.len(),
        distinct_ips(keys),
        0 <= i < n,
    ensures
        entries_map(keys, vals.update(i, x), n) == entries_map(keys, vals, n).insert(keys[i], x),
    decreases n,
{
    if i < n - 1 {
        lemma_entries_update(keys, vals, (n - 1) as nat, i, x);
        assert(entries_map(keys, vals.update(i, x), n) =~= entries_map(keys, vals, n).insert(keys[i], x));
    } else {
        lemma_entries_vals_prefix(keys, vals, vals.update(i, x), (n - 1) as nat);
        assert(entries_map(keys, vals.update(i, x), n) =~= entries_map(keys, vals, n).insert(keys[i], x));
    }
}

pub proof fn lemma_entries_len<V>(keys: Seq<IpAddress>, vals: Seq<V>, n: nat)
    requires
        n <= keys.len(),
        distinct_ips(keys),
    ensures
        entries_map(keys, vals, n).dom().finite(),
        entries_map(keys, vals, n).dom().len() == n,
    decreases n,
{
    if n > 0 {
        lemma_entries_len(keys, vals, (n - 1) as nat);
        lemma_entries_dom(keys, vals, (n - 1) as nat, keys[n - 1]);
    }
}

impl<V> IpMap<V> {
    /// The map's internal invariant.
    pub closed spec fn wf(self) -> bool {
        &&& self.keys@.len() == self.vals@.len()
        &&& distinct_ips(self.keys@)
        &&& indexes_agree(self.keys@, self.v4_index@, self.v6_index@)
    }

    /// The keys, in insertion order.
    pub closed spec fn key_seq(self) -> Seq<IpAddress> {
        self.keys@
    }

    /// The values, in the order of their keys.
    pub closed spec fn val_seq(self) -> Seq<V> {
        self.vals@
    }

    /// The map's contents.
    pub closed spec fn map(self) -> Map<IpAddress, V> {
        entries_map(self.keys@, self.vals@, self.keys@.len())
    }

    pub fn new() -> (r: Self)
        ensures
            r.wf(),
            r.map() == Map::<IpAddress, V>::empty(),
            r.key_seq().len() == 0,
    {
        IpMap { keys: Vec::new(), vals: Vec::new(), v4_index: HashMapWithView::new(), v6_index: HashMapWithView::new() }
    }

    pub fn len(&self) -> (n: usize)
        requires
            self.wf(),
        ensures
            n == self.key_seq().len(),
    {
        self.keys.len()
    }

    /// The position of `ip`, if it is a key.
    pub fn find(&self, ip: &IpAddress) -> (r: Option<usize>)
        requires
            self.wf(),
        ensures
            match r {
                Some(i) => i < self.key_seq().len() && self.key_seq()[i as int] == *ip
                    && self.map().contains_key(*ip),
                None => !self.map().contains_key(*ip),
            },
    {
        let n = self.keys.len();
        let found = match ip {
            IpAddress::V4(x) => self.v4_index.get(x),
            IpAddress::V6(x) => self.v6_index.get(x),
        };
        match found {
            Some(i) => {
                let i = *i;
                proof {
                    lemma_entries_get(self.keys@, self.vals@, n as nat, i as int);
                }
                Some(i)
            },
            None => {
                proof {
                    lemma_entries_dom(self.keys@, self.vals@, n as nat, *ip);
                    if exists|j: int| 0 <= j < n && self.keys@[j] == *ip {
                        let j = choose|j: int| 0 <= j < n && self.keys@[j] == *ip;
                        assert(match self.keys@[j] {
                            IpAddress::V4(x) => self.v4_index@.contains_key(x),
                            IpAddress::V6(x) => self.v6_index@.contains_key(x),
                        });
                    }
                }
                None
            },
        }
    }

    /// The entry at position `i`.
    pub fn key_at(&self, i: usize) -> (k: IpAddress)
        requires
            self.wf(),
            i < self.key_seq().len(),
        ensures
            k == self.key_seq()[i as int],
            self.map().contains_key(k),
    {
        proof {
            lemma_entries_get(self.keys@, self.vals@, self.keys@.len(), i as int);
        }
        self.keys[i]
    }

    /// The value at position `i`.
    pub fn val_at(&self, i: usize) -> (v: &V)
        requires
            self.wf(),
            i < self.key_seq().len(),
        ensures
            *v == self.val_seq()[i as int],
            *v == self.map()[self.key_seq()[i as int]],
            self.map().contains_key(self.key_seq()[i as int]),
    {
        proof {
            lemma_entries_get(self.keys@, self.vals@, self.keys@.len(), i as int);
        }
        &self.vals[i]
    }

    /// The value of `ip`, if it is a key.
    pub fn get(&self, ip: &IpAddress) -> (r: Option<&V>)
        requires
            self.wf(),
        ensures
            match r {
                Some(v) => self.map().contains_key(*ip) && *v == self.map()[*ip],
                None => !self.map().contains_key(*ip),
            },
    {
        match self.find(ip) {
            Some(i) => Some(self.val_at(i)),
            None => None,
        }
    }

    /// Replaces the value at position `i`.
    pub fn set_at(&mut self, i: usize, v: V)
        requires
            old(self).wf(),
            i < old(self).key_seq().len(),
        ensures
            final(self).wf(),
            final(self).key_seq() == old(self).key_seq(),
            final(self).val_seq() == old(self).val_seq().update(i as int, v),
            final(self).map() == old(self).map().insert(old(self).key_seq()[i as int], v),
    {
        let ghost vals0 = self.vals@;
        self.vals.set(i, v);
        proof {
            lemma_entries_update(self.keys@, vals0, self.keys@.len(), i as int, v);
        }
    }

    /// Adds a key that is not yet present.
    pub fn push_new(&mut self, ip: IpAddress, v: V)
        requires
            old(self).wf(),
            !old(self).map().contains_key(ip),
        ensures
            final(self).wf(),
            final(self).key_seq() == old(self).key_seq().push(ip),
            final(self).val_seq() == old(self).val_seq().push(v),
            final(self).map() == old(self).map().insert(ip, v),
    {
        let ghost keys0 = self.keys@;
        let ghost vals0 = self.vals@;
        let n = self.keys.len();
        proof {
            assert forall|j: int| 0 <= j < n implies keys0[j] != ip by {
                lemma_entries_get(keys0, vals0, n as nat, j);
            }
        }
        self.keys.push(ip);
        self.vals.push(v);
        match ip {
            IpAddress::V4(x) => self.v4_index.insert(x, n),
            IpAddress::V6(x) => self.v6_index.insert(x, n),
        }
        proof {
            assert forall|i: int| 0 <= i < self.keys@.len() implies match #[trigger] self.keys@[i] {
                IpAddress::V4(x) => self.v4_index@.contains_key(x),
                IpAddress::V6(x) => self.v6_index@.contains_key(x),
            } by {
                if i < n {
                    assert(self.keys@[i] == keys0[i]);
                }
            }
            lemma_entries_vals_prefix(self.keys@, vals0, self.vals@, n as nat);
            lemma_entries_keys_prefix(keys0, self.keys@, vals0, n as nat);
        }
    }

    /// Sets the value of `ip`, adding it when absent.
    pub fn insert(&mut self, ip: IpAddress, v: V)
        requires
            old(self).wf(),
        ensures
            final(self).wf(),
            final(self).map() == old(self).map().insert(ip, v),
            old(self).map().contains_key(ip) ==> final(self).key_seq() == old(self).key_seq(),
            !old(self).map().contains_key(ip) ==> final(self).key_seq() == old(self).key_seq().push(ip),
    {
        match self.find(&ip) {
            Some(i) => self.set_at(i, v),
            None => self.push_new(ip, v),
        }
    }

    /// Every key and its value, in insertion order.
    pub fn entries(&self) -> (r: (&Vec<IpAddress>, &Vec<V>))
        requires
            self.wf(),
        ensures
            r.0@ == self.key_seq(),
            r.1@ == self.val_seq(),
            r.0@.len() == r.1@.len(),
            forall|i: int| 0 <= i < r.0@.len() ==> self.map().contains_key(#[trigger] r.0@[i])
                && self.map()[r.0@[i]] == r.1@[i],
            forall|ip: IpAddress| self.map().contains_key(ip) ==> exists|i: int| 0 <= i < r.0@.len() && #[trigger] r.0@[i] == ip,
            forall|i: int, j: int| 0 <= i < j < r.0@.len() ==> r.0@[i] != r.0@[j],
    {
        proof {
            self.lemma_props();
        }
        (&self.keys, &self.vals)
    }

    /// What the entries say about the map.
    pub proof fn lemma_props(&self)
        requires
            self.wf(),
        ensures
            self.key_seq().len() == self.val_seq().len(),
            forall|i: int| 0 <= i < self.key_seq().len() ==> self.map().contains_key(#[trigger] self.key_seq()[i])
                && self.map()[self.key_seq()[i]] == self.val_seq()[i],
            forall|ip: IpAddress| self.map().contains_key(ip) ==> exists|i: int| 0 <= i < self.key_seq().len() && #[trigger] self.key_seq()[i] == ip,
            forall|i: int, j: int| 0 <= i < j < self.key_seq().len() ==> self.key_seq()[i] != self.key_seq()[j],
            self.map().dom().finite(),
            self.map().dom().len() == self.key_seq().len(),
    {
        lemma_entries_len(self.keys@, self.vals@, self.keys@.len());
        assert forall|i: int| 0 <= i < self.key_seq().len() implies self.map().contains_key(#[trigger] self.key_seq()[i])
            && self.map()[self.key_seq()[i]] == self.val_seq()[i] by {
            lemma_entries_get(self.keys@, self.vals@, self.keys@.len(), i);
        }
        assert forall|ip: IpAddress| self.map().contains_key(ip) implies exists|i: int| 0 <= i < self.key_seq().len() && #[trigger] self.key_seq()[i] == ip by {
            lemma_entries_dom(self.keys@, self.vals@, self.keys@.len(), ip);
            let i = choose|i: int| 0 <= i < self.keys@.len() && self.keys@[i] == ip;
            assert(self.key_seq()[i] == ip);
        }
    }
}

} // verus!
