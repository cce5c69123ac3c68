use vstd::prelude::*;
use vstd::utf8::{decode_utf8, valid_utf8};
use crate::ip::{be_bytes, be_value, IpAddress};
use crate::text::{push_char, push_str, utf8_string};

verus! {

/// How many compression pointers a name may follow. A pointer chain can
/// revisit an earlier offset, so this cap is what bounds the walk.
pub const MAX_LABEL_JUMPS: usize = 5;

/// The source address, protocol number and payload offset of an IPv4 or
/// IPv6 packet; `None` for another version or a truncated header.
pub open spec fn ip_header_spec(pkt: Seq<u8>) -> Option<(IpAddress, u8, int)> {
    if pkt.len() == 0 {
        None
    } else {
        let version = pkt[0] / 16;
        if version == 4 {
            let ihl = (pkt[0] % 16) * 4;
            if pkt.len() < 20 || ihl < 20 || pkt.len() < ihl {
                None
            } else {
                Some((IpAddress::V4(be_value(pkt.subrange(12, 16)) as u32), pkt[9], ihl as int))
            }
        } else if version == 6 {
            if pkt.len() < 40 {
                None
            } else {
                Some((IpAddress::V6(be_value(pkt.subrange(8, 24)) as u128), pkt[6], 40))
            }
        } else {
            None
        }
    }
}

/// The offset of the payload of the UDP datagram at `start`, when it is
/// complete enough and addressed to port 53.
pub open spec fn udp_spec(pkt: Seq<u8>, start: int) -> Option<int> {
    if pkt.len() - start < 8 {
        None
    } else if pkt[start + 2] as int * 256 + pkt[start + 3] as int != 53 {
        None
    } else {
        Some(start + 8)
    }
}

/// A pointer's target: the low six bits of its first byte, then its second byte.
pub open spec fn pointer_target(b0: u8, b1: u8) -> int {
    (b0 - 192) * 256 + b1
}

/// The labels of the name at `pos` of `msg`, following compression pointers
/// only backward and at most `MAX_LABEL_JUMPS` times in all; `None` for a
/// malformed or truncated name.
pub open spec fn name_labels(msg: Seq<u8>, pos: int, jumps: int) -> Option<Seq<Seq<u8>>>
    decreases (if jumps <= 5 { 5 - jumps } else { 0 }), msg.len() - pos,
{
    if pos < 0 || pos >= msg.len() {
        None
    } else {
        let b = msg[pos];
        if b == 0 {
            Some(Seq::empty())
        } else if b >= 192 {
            if pos + 1 >= msg.len() {
                None
            } else if jumps + 1 > MAX_LABEL_JUMPS {
                None
            } else {
                let ptr = pointer_target(b, msg[pos + 1]);
                if ptr >= pos {
                    None
                } else {
                    name_labels(msg, ptr, jumps + 1)
                }
            }
        } else if b >= 64 {
            None
        } else {
            let end = pos + 1 + b;
            if end > msg.len() {
                None
            } else {
                match name_labels(msg, end, jumps) {
                    Some(rest) => Some(seq![msg.subrange(pos + 1, end)] + rest),
                    None => None,
                }
            }
        }
    }
}

/// Whether every label is valid UTF-8.
pub open spec fn all_utf8(labels: Seq<Seq<u8>>) -> bool {
    forall|i: int| 0 <= i < labels.len() ==> valid_utf8(#[trigger] labels[i])
}

/// The decoded labels joined with dots.
pub open spec fn join_labels(labels: Seq<Seq<u8>>) -> Seq<char>
    decreases labels.len(),
{
    if labels.len() == 0 {
        Seq::empty()
    } else if labels.len() == 1 {
        decode_utf8(labels[0])
    } else {
        join_labels(labels.drop_last()) + seq!['.'] + decode_utf8(labels.last())
    }
}

/// The first question's name of the DNS message at `start`.
pub open spec fn qname_spec(pkt: Seq<u8>, start: int) -> Option<Seq<char>> {
    let msg = pkt.subrange(start, pkt.len() as int);
    if msg.len() < 12 {
        None
    } else {
        match name_labels(msg, 12, 0) {
            Some(labels) => if all_utf8(labels) { Some(join_labels(labels)) } else { None },
            None => None,
        }
    }
}

/// A name written as uncompressed labels, each preceded by its length
/// (without the terminating zero byte).
pub open spec fn encode_labels(labels: Seq<Seq<u8>>) -> Seq<u8>
    decreases labels.len(),
{
    if labels.len() == 0 {
        Seq::empty()
    } else {
        seq![labels[0].len() as u8] + labels[0] + encode_labels(labels.drop_first())
    }
}

/// Whether every label has between 1 and 63 bytes.
pub open spec fn labels_fit(labels: Seq<Seq<u8>>) -> bool {
    forall|i: int| 0 <= i < labels.len() ==> 1 <= (#[trigger] labels[i]).len() <= 63
}

proof fn lemma_name_labels_encoded(msg: Seq<u8>, pos: int, labels: Seq<Seq<u8>>, jumps: int)
    requires
        labels_fit(labels),
        0 <= pos,
        pos + encode_labels(labels).len() + 1 <= msg.len(),
        msg.subrange(pos, pos + encode_labels(labels).len() + 1) == encode_labels(labels) + seq![0u8],
    ensures
        name_labels(msg, pos, jumps) == Some(labels),
    decreases labels.len(),
{
    let enc = encode_labels(labels);
    assert(msg[pos] == (enc + seq![0u8])[0]) by {
        assert(msg.subrange(pos, pos + enc.len() + 1)[0] == msg[pos]);
    }
    if labels.len() == 0 {
        assert(enc =~= Seq::<u8>::empty());
    } else {
        let l = labels[0];
        let rest = labels.drop_first();
        let erest = encode_labels(rest);
        assert(enc == seq![l.len() as u8] + l + erest);
        assert(labels_fit(rest)) by {
            assert forall|i: int| 0 <= i < rest.len() implies 1 <= (#[trigger] rest[i]).len() <= 63 by {
                assert(rest[i] == labels[i + 1]);
            }
        }
        assert(1 <= l.len() <= 63) by {
            assert(labels[0] == l);
        }
        let end = pos + 1 + l.len();
        let whole = msg.subrange(pos, pos + enc.len() + 1);
        assert(whole =~= seq![l.len() as u8] + l + erest + seq![0u8]);
        assert(msg[pos] == l.len() as u8) by {
            assert(whole[0] == msg[pos]);
        }
        assert(msg.subrange(pos + 1, end) =~= l) by {
            assert forall|i: int| 0 <= i < l.len() implies msg.subrange(pos + 1, end)[i] == l[i] by {
                assert(whole[1 + i] == msg[pos + 1 + i]);
            }
        }
        assert(msg.subrange(end, end + erest.len() + 1) =~= erest + seq![0u8]) by {
            assert forall|i: int| 0 <= i < erest.len() + 1 implies msg.subrange(end, end + erest.len() + 1)[i] == (erest
                + seq![0u8])[i] by {
                assert(whole[1 + l.len() + i] == msg[end + i]);
            }
        }
        lemma_name_labels_encoded(msg, end, rest, jumps);
        assert(seq![l] + rest =~= labels);
    }
}

/// A question name written as plain labels (1 to 63 bytes each, valid
/// UTF-8) after the 12-byte DNS header and ended by a zero byte reads back as
/// those labels joined with dots, whatever follows it; no labels give the
/// empty name.
pub proof fn lemma_qname_round_trip(before: Seq<u8>, header: Seq<u8>, labels: Seq<Seq<u8>>, after: Seq<u8>)
    requires
        header.len() == 12,
        labels_fit(labels),
        all_utf8(labels),
    ensures
        qname_spec(before + header + encode_labels(labels) + seq![0u8] + after, before.len() as int) == Some(
            join_labels(labels),
        ),
{
    let pkt = before + header + encode_labels(labels) + seq![0u8] + after;
    let msg = pkt.subrange(before.len() as int, pkt.len() as int);
    let enc = encode_labels(labels);
    assert(msg =~= header + enc + seq![0u8] + after);
    assert(msg.subrange(12, 12 + enc.len() as int + 1) =~= enc + seq![0u8]);
    lemma_name_labels_encoded(msg, 12, labels, 0);
}

/// The source address and queried name of a UDP DNS query to port 53 in a
/// raw IP packet.
pub open spec fn dns_query_spec(pkt: Seq<u8>) -> Option<(IpAddress, Seq<char>)> {
    match ip_header_spec(pkt) {
        Some((src, proto, off)) => if proto != 17 {
            None
        } else {
            match udp_spec(pkt, off) {
                Some(dns) => match qname_spec(pkt, dns) {
                    Some(name) => Some((src, name)),
                    None => None,
                },
                None => None,
            }
        },
        None => None,
    }
}

/// Parses a raw IPv4 or IPv6 packet and, if it is a UDP query addressed to
/// port 53, returns the source address and the first question's domain name
/// (labels joined with dots; the root name gives the empty string).
pub fn parse_dns_query(ip_packet: &[u8]) -> (r: Option<(IpAddress, String)>)
    ensures
        match r {
            Some((ip, name)) => dns_query_spec(ip_packet@) == Some((ip, name@)),
            None => dns_query_spec(ip_packet@) is None,
        },
{
    let (src, proto, off) = match parse_ip_header(ip_packet) {
        Some(h) => h,
        None => return None,
    };
    if proto != 17 {
        return None;
    }
    let dns = match parse_udp_header(ip_packet, off) {
        Some(d) => d,
        None => return None,
    };
    match parse_dns_qname(ip_packet, dns) {
        Some(domain) => Some((src, domain)),
        None => None,
    }
}

fn parse_ip_header(pkt: &[u8]) -> (r: Option<(IpAddress, u8, usize)>)
    ensures
        match r {
            Some((ip, proto, off)) => ip_header_spec(pkt@) == Some((ip, proto, off as int)) && off
                <= pkt@.len(),
            None => ip_header_spec(pkt@) is None,
        },
{
    if pkt.len() == 0 {
        return None;
    }
    let version = pkt[0] / 16;
    if version == 4 {
        parse_ipv4(pkt)
    } else if version == 6 {
        parse_ipv6(pkt)
    } else {
        None
    }
}

fn parse_ipv4(pkt: &[u8]) -> (r: Option<(IpAddress, u8, usize)>)
    requires
        pkt@.len() > 0,
        pkt@[0] / 16 == 4,
    ensures
        match r {
            Some((ip, proto, off)) => ip_header_spec(pkt@) == Some((ip, proto, off as int)) && off
                <= pkt@.len(),
            None => ip_header_spec(pkt@) is None,
        },
{
    if pkt.len() < 20 {
        return None;
    }
    let ihl = (pkt[0] % 16) as usize * 4;
    if ihl < 20 || pkt.len() < ihl {
        return None;
    }
    let proto = pkt[9];
    let v = be_bytes(pkt, 12, 4);
    proof {
        crate::ip::lemma_be_value_bound(pkt@.subrange(12, 16));
        assert(crate::ip::pow256(4) == 0x1_0000_0000) by {
            assert(crate::ip::pow256(0) == 1);
            assert(crate::ip::pow256(1) == 0x100);
            assert(crate::ip::pow256(2) == 0x1_0000);
            assert(crate::ip::pow256(3) == 0x100_0000);
        }
    }
    Some((IpAddress::V4(v as u32), proto, ihl))
}

fn parse_ipv6(pkt: &[u8]) -> (r: Option<(IpAddress, u8, usize)>)
    requires
        pkt@.len() > 0,
        pkt@[0] / 16 == 6,
    ensures
        match r {
            Some((ip, proto, off)) => ip_header_spec(pkt@) == Some((ip, proto, off as int)) && off
                <= pkt@.len(),
            None => ip_header_spec(pkt@) is None,
        },
{
    if pkt.len() < 40 {
        return None;
    }
    let next_header = pkt[6];
    let v = be_bytes(pkt, 8, 16);
    Some((IpAddress::V6(v), next_header, 40))
}

/// The offset of the DNS message in the UDP datagram at `start`, when the
/// datagram is addressed to port 53.
fn parse_udp_header(pkt: &[u8], start: usize) -> (r: Option<usize>)
    requires
        start <= pkt@.len(),
    ensures
        match r {
            Some(d) => udp_spec(pkt@, start as int) == Some(d as int) && d <= pkt@.len(),
            None => udp_spec(pkt@, start as int) is None,
        },
{
    if pkt.len() - start < 8 {
        return None;
    }
    let dst_port = pkt[start + 2] as u16 * 256 + pkt[start + 3] as u16;
    if dst_port != 53 {
        return None;
    }
    Some(start + 8)
}

/// The first question's name of the DNS message at `start`.
fn parse_dns_qname(pkt: &[u8], start: usize) -> (r: Option<String>)
    requires
        start <= pkt@.len(),
    ensures
        match r {
            Some(name) => qname_spec(pkt@, start as int) == Some(name@),
            None => qname_spec(pkt@, start as int) is None,
        },
{
    let ghost msg = pkt@.subrange(start as int, pkt@.len() as int);
    let plen = pkt.len();
    let len = plen - start;
    if len < 12 {
        return None;
    }
    let mut pos: usize = 12;
    let mut jumps: usize = 0;
    let mut labels: Vec<Vec<u8>> = Vec::new();
    loop
        invariant
            msg == pkt@.subrange(start as int, pkt@.len() as int),
            len == msg.len(),
            start + len == plen,
            plen == pkt@.len(),
            jumps <= MAX_LABEL_JUMPS,
            name_labels(msg, 12, 0) == match name_labels(msg, pos as int, jumps as int) {
                Some(rest) => Some(labels@.map_values(|l: Vec<u8>| l@) + rest),
                None => None::<Seq<Seq<u8>>>,
            },
        ensures
            name_labels(msg, 12, 0) == Some(labels@.map_values(|l: Vec<u8>| l@)),
        decreases (MAX_LABEL_JUMPS - jumps), len - pos,
    {
        if pos >= len {
            return None;
        }
        let b = pkt[start + pos];
        if b == 0 {
            assert(labels@.map_values(|l: Vec<u8>| l@) + Seq::<Seq<u8>>::empty() =~= labels@.map_values(|l: Vec<u8>| l@));
            break;
        } else if b >= 192 {
            if pos + 1 >= len {
                return None;
            }
            if jumps + 1 > MAX_LABEL_JUMPS {
                return None;
            }
            let ptr = (b as usize - 192) * 256 + pkt[start + pos + 1] as usize;
            if ptr >= pos {
                return None;
            }
            jumps = jumps + 1;
            pos = ptr;
        } else if b >= 64 {
            return None;
        } else {
            if b as usize > len - pos - 1 {
                return None;
            }
            let end = pos + 1 + b as usize;
            let mut label: Vec<u8> = Vec::new();
            let mut k = pos + 1;
            while k < end
                invariant
                    pos + 1 <= k <= end <= len,
                    start + len == plen,
                    plen == pkt@.len(),
                    msg == pkt@.subrange(start as int, pkt@.len() as int),
                    label@ == msg.subrange(pos + 1, k as int),
                decreases end - k,
            {
                label.push(pkt[start + k]);
                assert(msg.subrange(pos + 1, k + 1) =~= msg.subrange(pos + 1, k as int).push(msg[k as int]));
                k = k + 1;
            }
            let ghost before = labels@.map_values(|l: Vec<u8>| l@);
            labels.push(label);
            assert(labels@.map_values(|l: Vec<u8>| l@) =~= before.push(msg.subrange(pos + 1, end as int)));
            proof {
                match name_labels(msg, end as int, jumps as int) {
                    Some(rest) => {
                        assert(before + (seq![msg.subrange(pos + 1, end as int)] + rest) =~= before.push(
                            msg.subrange(pos + 1, end as int),
                        ) + rest);
                    },
                    None => {},
                }
            }
            pos = end;
        }
    }
    let ghost all = labels@.map_values(|l: Vec<u8>| l@);
    // Decode each label and join them with dots.
    let mut out = String::new();
    let mut i: usize = 0;
    let n = labels.len();
    while i < n
        invariant
            n == labels@.len(),
            all == labels@.map_values(|l: Vec<u8>| l@),
            msg == pkt@.subrange(start as int, pkt@.len() as int),
            msg.len() >= 12,
            name_labels(msg, 12, 0) == Some(all),
            i <= n,
            all_utf8(all.subrange(0, i as int)),
            out@ == join_labels(all.subrange(0, i as int)),
        decreases n - i,
    {
        let bytes = labels[i].clone();
        assert(bytes@ == all[i as int]);
        match utf8_string(bytes) {
            Some(s) => {
                if i > 0 {
                    push_char(&mut out, '.');
                }
                push_str(&mut out, s.as_str());
                let ghost pre = all.subrange(0, i as int);
                let ghost post = all.subrange(0, i + 1);
                assert(post.drop_last() =~= pre);
                assert(post.last() == all[i as int]);
                if i == 0 {
                    assert(out@ =~= decode_utf8(all[0]));
                } else {
                    assert(out@ =~= join_labels(pre) + seq!['.'] + decode_utf8(all[i as int]));
                }
                assert forall|j: int| 0 <= j < post.len() implies valid_utf8(#[trigger] post[j]) by {
                    if j < i {
                        assert(post[j] == pre[j]);
                    }
                }
            },
            None => {
                assert(!all_utf8(all)) by {
                    assert(!valid_utf8(all[i as int]));
                }
                return None;
            },
        }
        i = i + 1;
    }
    assert(all.subrange(0, n as int) =~= all);
    Some(out)
}

} // verus!
