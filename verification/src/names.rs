use vstd::prelude::*;
use vstd::hash_map::StringHashMap;
use crate::ip::{parse_ip_chars, parse_ip_spec, IpAddress};
use crate::ipmap::IpMap;
use crate::text::{chars_eq, chars_of, lines, lines_of, lowercase, string_of, to_lower, words, words_of};

verus! {

broadcast use vstd::hash_map::group_hash_map_axioms;

/// What the name tables hold: the MAC of each address, the host name of each MAC.
pub struct Names {
    pub ip_to_mac: Map<IpAddress, Seq<char>>,
    pub mac_to_host: Map<Seq<char>, Seq<char>>,
}

/// One DHCP lease line (`expiry mac ip host ...`): the address maps to the
/// lowercased MAC, and the MAC to the host name unless it is `*` or empty.
pub open spec fn lease_step(n: Names, line: Seq<char>) -> Names {
    let f = words(line);
    if f.len() < 4 {
        n
    } else {
        let mac = lowercase(f[1]);
        let ip_to_mac = match parse_ip_spec(f[2]) {
            Some(ip) => n.ip_to_mac.insert(ip, mac),
            None => n.ip_to_mac,
        };
        let host = f[3];
        let mac_to_host = if host != "*"@ && host.len() > 0 { n.mac_to_host.insert(mac, host) } else { n.mac_to_host };
        Names { ip_to_mac, mac_to_host }
    }
}

/// One ARP table line (`ip hwtype flags mac ...`): an address without a MAC
/// yet gets the lowercased MAC, unless that is all zeros.
pub open spec fn arp_step(n: Names, line: Seq<char>) -> Names {
    let f = words(line);
    if f.len() < 4 {
        n
    } else {
        let mac = lowercase(f[3]);
        if mac == "00:00:00:00:00:00"@ {
            n
        } else {
            match parse_ip_spec(f[0]) {
                Some(ip) => if n.ip_to_mac.contains_key(ip) { n } else {
                    Names { ip_to_mac: n.ip_to_mac.insert(ip, mac), mac_to_host: n.mac_to_host }
                },
                None => n,
            }
        }
    }
}

pub open spec fn leases_fold(n: Names, ls: Seq<Seq<char>>) -> Names
    decreases ls.len(),
{
    if ls.len() == 0 { n } else { lease_step(leases_fold(n, ls.drop_last()), ls.last()) }
}

pub open spec fn arp_fold(n: Names, ls: Seq<Seq<char>>) -> Names
    decreases ls.len(),
{
    if ls.len() == 0 { n } else { arp_step(arp_fold(n, ls.drop_last()), ls.last()) }
}

pub open spec fn empty_names() -> Names {
    Names { ip_to_mac: Map::empty(), mac_to_host: Map::empty() }
}

/// The tables built from the lease file and the ARP table (whose first line
/// is a header): leases first, then ARP entries for addresses leases missed.
pub open spec fn names_from(leases: Seq<char>, arp: Seq<char>) -> Names {
    let al = lines(arp);
    let arp_body = if al.len() == 0 { al } else { al.drop_first() };
    arp_fold(leases_fold(empty_names(), lines(leases)), arp_body)
}

proof fn lemma_arp_fold_keeps(n: Names, ls: Seq<Seq<char>>)
    ensures
        arp_fold(n, ls).mac_to_host == n.mac_to_host,
        forall|ip: IpAddress| #[trigger] n.ip_to_mac.contains_key(ip) ==> arp_fold(n, ls).ip_to_mac.contains_key(ip)
            && arp_fold(n, ls).ip_to_mac[ip] == n.ip_to_mac[ip],
    decreases ls.len(),
{
    if ls.len() > 0 {
        lemma_arp_fold_keeps(n, ls.drop_last());
    }
}

/// The ARP table only fills in addresses that the leases left open: an
/// address that a lease maps keeps that lease's MAC, and host names come
/// from the leases alone.
pub proof fn lemma_leases_take_precedence(leases: Seq<char>, arp: Seq<char>)
    ensures
        ({
            let from_leases = leases_fold(empty_names(), lines(leases));
            &&& names_from(leases, arp).mac_to_host == from_leases.mac_to_host
            &&& forall|ip: IpAddress| #[trigger] from_leases.ip_to_mac.contains_key(ip) ==> names_from(
                leases,
                arp,
            ).ip_to_mac.contains_key(ip) && names_from(leases, arp).ip_to_mac[ip] == from_leases.ip_to_mac[ip]
        }),
{
    let al = lines(arp);
    let arp_body = if al.len() == 0 { al } else { al.drop_first() };
    lemma_arp_fold_keeps(leases_fold(empty_names(), lines(leases)), arp_body);
}

/// Address-to-MAC and MAC-to-host tables from DHCP leases and the ARP table.
pub struct NameTable {
    ip_to_mac: IpMap<String>,
    mac_to_host: StringHashMap<String>,
}

impl NameTable {
    /// The table's internal invariant.
    pub closed spec fn wf(self) -> bool {
        self.ip_to_mac.wf()
    }

    /// What the tables hold.
    pub closed spec fn names(self) -> Names {
        Names {
            ip_to_mac: self.ip_to_mac.map().map_values(|s: String| s@),
            mac_to_host: self.mac_to_host@.map_values(|s: String| s@),
        }
    }

    /// Empty tables.
    pub fn new() -> (r: Self)
        ensures
            r.wf(),
            r.names() == empty_names(),
    {
        let r = NameTable { ip_to_mac: IpMap::new(), mac_to_host: StringHashMap::new() };
        assert(r.names().ip_to_mac =~= Map::<IpAddress, Seq<char>>::empty());
        assert(r.names().mac_to_host =~= Map::<Seq<char>, Seq<char>>::empty());
        r
    }

    fn add_lease(&mut self, line: &[char])
        requires
            old(self).wf(),
        ensures
            final(self).wf(),
            final(self).names() == lease_step(old(self).names(), line@),
    {
        let f = words_of(line);
        let ghost fv = f@.map_values(|w: Vec<char>| w@);
        assert(fv == words(line@));
        if f.len() < 4 {
            return;
        }
        let mac_src = string_of(f[1].as_slice());
        let mac = to_lower(mac_src.as_str());
        assert(fv[1] == f@[1]@);
        assert(fv[2] == f@[2]@);
        assert(fv[3] == f@[3]@);
        let ghost n0 = self.names();
        if let Some(ip) = parse_ip_chars(f[2].as_slice()) {
            self.ip_to_mac.insert(ip, mac.clone());
            assert(self.ip_to_mac.map().map_values(|s: String| s@) =~= n0.ip_to_mac.insert(ip, mac@));
        }
        let star = chars_of("*");
        let host = &f[3];
        if !chars_eq(host.as_slice(), star.as_slice()) && host.len() > 0 {
            let h = string_of(host.as_slice());
            self.mac_to_host.insert(mac, h);
        }
        assert(self.names().mac_to_host =~= lease_step(n0, line@).mac_to_host);
        assert(self.names().ip_to_mac =~= lease_step(n0, line@).ip_to_mac);
    }

    fn add_arp(&mut self, line: &[char])
        requires
            old(self).wf(),
        ensures
            final(self).wf(),
            final(self).names() == arp_step(old(self).names(), line@),
    {
        let f = words_of(line);
        let ghost fv = f@.map_values(|w: Vec<char>| w@);
        assert(fv == words(line@));
        if f.len() < 4 {
            return;
        }
        assert(fv[0] == f@[0]@);
        assert(fv[3] == f@[3]@);
        let mac_src = string_of(f[3].as_slice());
        let mac = to_lower(mac_src.as_str());
        let zero = chars_of("00:00:00:00:00:00");
        let mac_chars = chars_of(mac.as_str());
        if chars_eq(mac_chars.as_slice(), zero.as_slice()) {
            return;
        }
        let ghost n0 = self.names();
        if let Some(ip) = parse_ip_chars(f[0].as_slice()) {
            if self.ip_to_mac.find(&ip).is_none() {
                self.ip_to_mac.push_new(ip, mac);
                assert(self.ip_to_mac.map().map_values(|s: String| s@) =~= n0.ip_to_mac.insert(ip, mac_chars@));
            } else {
                assert(n0.ip_to_mac.contains_key(ip));
            }
        }
    }

    /// Builds the tables from the DHCP lease file and the ARP table text.
    pub fn from_text(leases: &str, arp: &str) -> (r: NameTable)
        ensures
            r.wf(),
            r.names() == names_from(leases@, arp@),
    {
        let mut t = NameTable::new();
        let lc = chars_of(leases);
        let ls = lines_of(lc.as_slice());
        let ghost lv = ls@.map_values(|w: Vec<char>| w@);
        let mut i: usize = 0;
        while i < ls.len()
            invariant
                t.wf(),
                lv == ls@.map_values(|w: Vec<char>| w@),
                i <= ls@.len(),
                t.names() == leases_fold(empty_names(), lv.subrange(0, i as int)),
            decreases ls@.len() - i,
        {
            assert(lv.subrange(0, i + 1).drop_last() =~= lv.subrange(0, i as int));
            assert(lv.subrange(0, i + 1).last() == ls@[i as int]@);
            t.add_lease(ls[i].as_slice());
            i = i + 1;
        }
        assert(lv.subrange(0, ls@.len() as int) =~= lv);
        let ghost after_leases = t.names();
        let ac = chars_of(arp);
        let al = lines_of(ac.as_slice());
        let ghost av = al@.map_values(|w: Vec<char>| w@);
        let ghost body = if av.len() == 0 { av } else { av.drop_first() };
        let mut k: usize = 1;
        while k < al.len()
            invariant
                t.wf(),
                av == al@.map_values(|w: Vec<char>| w@),
                av.len() > 0 ==> body == av.drop_first(),
                1 <= k,
                k <= al@.len() || al@.len() == 0,
                al@.len() > 0 ==> t.names() == arp_fold(after_leases, body.subrange(0, k - 1)),
                al@.len() == 0 ==> t.names() == after_leases,
            decreases al@.len() - k,
        {
            assert(body.subrange(0, k as int).drop_last() =~= body.subrange(0, k - 1));
            assert(body.subrange(0, k as int).last() == al@[k as int]@);
            t.add_arp(al[k].as_slice());
            k = k + 1;
        }
        proof {
            if av.len() > 0 {
                assert(body.subrange(0, av.len() - 1) =~= body);
            } else {
                assert(body =~= Seq::<Seq<char>>::empty());
            }
        }
        t
    }

    /// The MAC of an address, if known.
    pub fn mac_for(&self, ip: IpAddress) -> (r: Option<&str>)
        requires
            self.wf(),
        ensures
            match r {
                Some(m) => self.names().ip_to_mac.contains_key(ip) && m@ == self.names().ip_to_mac[ip],
                None => !self.names().ip_to_mac.contains_key(ip),
            },
    {
        match self.ip_to_mac.get(&ip) {
            Some(s) => Some(s.as_str()),
            None => None,
        }
    }

    /// The host name of a MAC, if known.
    pub fn host_for_mac(&self, mac: &str) -> (r: Option<&str>)
        ensures
            match r {
                Some(h) => self.names().mac_to_host.contains_key(mac@) && h@ == self.names().mac_to_host[mac@],
                None => !self.names().mac_to_host.contains_key(mac@),
            },
    {
        match self.mac_to_host.get(mac) {
            Some(s) => Some(s.as_str()),
            None => None,
        }
    }
}

} // verus!
