use vstd::prelude::*;
use crate::flow::{Flow, Proto};
use crate::ip::IpAddress;

verus! {

/// A network: an address and how many leading bits of it count.
#[derive(Debug, Clone, Copy, PartialEq, Eq)]
pub struct IpNet {
    pub addr: IpAddress,
    pub prefix_len: u8,
}

/// The IPv4 mask that keeps the first `len` bits (all of them from 32 on).
pub open spec fn mask_v4(len: u8) -> u32 {
    if len == 0 { 0 } else { u32::MAX << ((32 - (if len < 32 { len } else { 32 })) as u32) }
}

/// The IPv6 mask that keeps the first `len` bits (all of them from 128 on).
pub open spec fn mask_v6(len: u8) -> u128 {
    if len == 0 { 0 } else { u128::MAX << ((128 - (if len < 128 { len } else { 128 })) as u32) }
}

/// Whether `ip` lies in `net`: same address family and the same first
/// `prefix_len` bits.
pub open spec fn net_contains(net: IpNet, ip: IpAddress) -> bool {
    match (net.addr, ip) {
        (IpAddress::V4(n), IpAddress::V4(h)) => (n & mask_v4(net.prefix_len)) == (h & mask_v4(net.prefix_len)),
        (IpAddress::V6(n), IpAddress::V6(h)) => (n & mask_v6(net.prefix_len)) == (h & mask_v6(net.prefix_len)),
        _ => false,
    }
}

fn prefix_mask_v4(len: u8) -> (m: u32)
    ensures
        m == mask_v4(len),
{
    if len == 0 {
        0
    } else {
        let l: u8 = if len < 32 { len } else { 32 };
        u32::MAX << ((32 - l) as u32)
    }
}

fn prefix_mask_v6(len: u8) -> (m: u128)
    ensures
        m == mask_v6(len),
{
    if len == 0 {
        0
    } else {
        let l: u8 = if len < 128 { len } else { 128 };
        u128::MAX << ((128 - l) as u32)
    }
}

impl IpNet {
    pub fn contains(&self, ip: IpAddress) -> (r: bool)
        ensures
            r == net_contains(*self, ip),
    {
        match (self.addr, ip) {
            (IpAddress::V4(net), IpAddress::V4(host)) => {
                let mask = prefix_mask_v4(self.prefix_len);
                (net & mask) == (host & mask)
            },
            (IpAddress::V6(net), IpAddress::V6(host)) => {
                let mask = prefix_mask_v6(self.prefix_len);
                (net & mask) == (host & mask)
            },
            _ => false,
        }
    }
}

/// For a prefix length `l` from 1 to 32, two IPv4 addresses agree under the
/// mask exactly when their first `l` bits (the value shifted right by
/// `32 - l`) agree.
pub proof fn lemma_mask_v4_prefix(a: u32, b: u32, s: u32)
    requires
        s < 32,
    ensures
        ((a & (u32::MAX << s)) == (b & (u32::MAX << s))) <==> ((a >> s) == (b >> s)),
{
    assert(((a & (u32::MAX << s)) == (b & (u32::MAX << s))) <==> ((a >> s) == (b >> s)))
        by (bit_vector)
        requires
            s < 32,
    ;
}

/// A flow's bytes as seen from the LAN client that takes part in it.
#[derive(Debug, Clone, PartialEq, Eq)]
pub struct ClientDelta {
    pub client: IpAddress,
    pub rx: u64,
    pub tx: u64,
    pub proto: Proto,
}

/// Decides which side of a flow is the LAN client.
pub struct LanClassifier {
    prefixes: Vec<IpNet>,
}

/// Whether some prefix contains `ip`.
pub open spec fn in_lan(prefixes: Seq<IpNet>, ip: IpAddress) -> bool {
    exists|i: int| 0 <= i < prefixes.len() && net_contains(#[trigger] prefixes[i], ip)
}

/// The client side of a flow: the originator when it is on the LAN (its
/// upload is the original direction), else the responder when it is (its
/// download is the original direction), else none.
pub open spec fn attribute_spec(prefixes: Seq<IpNet>, f: Flow) -> Option<ClientDelta> {
    if in_lan(prefixes, f.orig_src) {
        Some(ClientDelta { client: f.orig_src, rx: f.reply_bytes, tx: f.orig_bytes, proto: f.proto })
    } else if in_lan(prefixes, f.orig_dst) {
        Some(ClientDelta { client: f.orig_dst, rx: f.orig_bytes, tx: f.reply_bytes, proto: f.proto })
    } else {
        None
    }
}

/// Every configured prefix counts, whichever its position: a flow whose
/// originator lies in some prefix belongs to that originator (its upload is
/// the original direction); otherwise, a flow whose responder lies in some
/// prefix belongs to the responder (its download is the original direction);
/// a flow between two addresses that no prefix contains belongs to nobody.
pub proof fn lemma_attribute_any_prefix(prefixes: Seq<IpNet>, f: Flow, i: int, j: int)
    ensures
        0 <= i < prefixes.len() && net_contains(prefixes[i], f.orig_src) ==> attribute_spec(prefixes, f) == Some(
            ClientDelta { client: f.orig_src, rx: f.reply_bytes, tx: f.orig_bytes, proto: f.proto },
        ),
        (forall|k: int| 0 <= k < prefixes.len() ==> !net_contains(#[trigger] prefixes[k], f.orig_src)) && 0 <= j
            < prefixes.len() && net_contains(prefixes[j], f.orig_dst) ==> attribute_spec(prefixes, f) == Some(
            ClientDelta { client: f.orig_dst, rx: f.orig_bytes, tx: f.reply_bytes, proto: f.proto },
        ),
        (forall|k: int| 0 <= k < prefixes.len() ==> !net_contains(#[trigger] prefixes[k], f.orig_src) && !net_contains(
            prefixes[k],
            f.orig_dst,
        )) ==> attribute_spec(prefixes, f) is None,
{
}

impl LanClassifier {
    /// The LAN prefixes.
    pub closed spec fn prefixes(self) -> Seq<IpNet> {
        self.prefixes@
    }

    pub fn new(prefixes: Vec<IpNet>) -> (r: Self)
        ensures
            r.prefixes() == prefixes@,
    {
        LanClassifier { prefixes }
    }

    fn is_lan(&self, ip: IpAddress) -> (r: bool)
        ensures
            r == in_lan(self.prefixes@, ip),
    {
        let mut i: usize = 0;
        while i < self.prefixes.len()
            invariant
                i <= self.prefixes@.len(),
                forall|j: int| 0 <= j < i ==> !net_contains(#[trigger] self.prefixes@[j], ip),
            decreases self.prefixes@.len() - i,
        {
            if self.prefixes[i].contains(ip) {
                return true;
            }
            i = i + 1;
        }
        false
    }

    pub fn attribute(&self, flow: &Flow) -> (r: Option<ClientDelta>)
        ensures
            r == attribute_spec(self.prefixes(), *flow),
    {
        if self.is_lan(flow.orig_src) {
            Some(ClientDelta {
                client: flow.orig_src,
                rx: flow.reply_bytes,
                tx: flow.orig_bytes,
                proto: flow.proto,
            })
        } else if self.is_lan(flow.orig_dst) {
            Some(ClientDelta {
                client: flow.orig_dst,
                rx: flow.orig_bytes,
                tx: flow.reply_bytes,
                proto: flow.proto,
            })
        } else {
            None
        }
    }
}

} // verus!
