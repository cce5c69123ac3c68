use vstd::prelude::*;
use crate::ip::{digit_of, digit_run, digits_value, parse_ip_chars, parse_ip_spec, IpAddress};
use crate::text::{chars_eq, chars_of, copy_range, str_eq, words, words_of};
use std::hash::BuildHasher;

verus! {

/// A flow's transport protocol.
#[derive(Debug, Clone, Copy, PartialEq, Eq, Structural)]
pub enum Proto {
    Tcp,
    Udp,
    Other,
}

/// One tracked connection: protocol, endpoints in the original direction,
/// byte counters of both directions, and a key that both directions share.
#[derive(Debug, Clone, PartialEq, Eq, Structural)]
pub struct Flow {
    pub proto: Proto,
    pub orig_src: IpAddress,
    pub orig_dst: IpAddress,
    pub orig_bytes: u64,
    pub reply_bytes: u64,
    pub flow_key: u64,
}

/// The protocol a name stands for.
pub open spec fn proto_named(name: Seq<char>) -> Proto {
    if name == "tcp"@ {
        Proto::Tcp
    } else if name == "udp"@ {
        Proto::Udp
    } else {
        Proto::Other
    }
}

impl Proto {
    pub fn parse(name: &str) -> (r: Proto)
        ensures
            r == proto_named(name@),
    {
        if str_eq(name, "tcp") {
            Proto::Tcp
        } else if str_eq(name, "udp") {
            Proto::Udp
        } else {
            Proto::Other
        }
    }
}

/// What std's `DefaultHasher` gives for the tuple of endpoint fields and protocol code.
pub uninterp spec fn endpoint_hash(
    lo_tag: u8,
    lo_addr: u128,
    lo_port: u16,
    hi_tag: u8,
    hi_addr: u128,
    hi_port: u16,
    proto: u8,
) -> u64;

/// Hashes the ordered endpoints and protocol code of a flow.
///
/// Trusted: calls std's `BuildHasher::hash_one` with the default
/// `DefaultHasher`. Every `DefaultHasher` made by `new` or `default` starts
/// from the same fixed keys, so equal tuples hash equally: the result is
/// named `endpoint_hash` of the arguments. What the hash value is (it rests
/// on the std release and on the machine's byte order) is left unsaid.
#[verifier::external_body]
fn hash_endpoints(
    lo_tag: u8,
    lo_addr: u128,
    lo_port: u16,
    hi_tag: u8,
    hi_addr: u128,
    hi_port: u16,
    proto: u8,
) -> (r: u64)
    ensures
        r == endpoint_hash(lo_tag, lo_addr, lo_port, hi_tag, hi_addr, hi_port, proto),
{
    std::hash::BuildHasherDefault::<std::collections::hash_map::DefaultHasher>::default().hash_one(
        (lo_tag, lo_addr, lo_port, hi_tag, hi_addr, hi_port, proto),
    )
}

/// The family tag of an address (IPv4 orders before IPv6).
pub open spec fn ip_tag(ip: IpAddress) -> u8 {
    match ip {
        IpAddress::V4(_) => 0,
        IpAddress::V6(_) => 1,
    }
}

/// The number of an address.
pub open spec fn ip_num(ip: IpAddress) -> u128 {
    match ip {
        IpAddress::V4(v) => v as u128,
        IpAddress::V6(v) => v,
    }
}

/// The order std gives `(IpAddr, u16)` pairs: family, then address, then port.
pub open spec fn endpoint_le(a: IpAddress, ap: u16, b: IpAddress, bp: u16) -> bool {
    ip_tag(a) < ip_tag(b) || (ip_tag(a) == ip_tag(b) && (ip_num(a) < ip_num(b) || (ip_num(a)
        == ip_num(b) && ap <= bp)))
}

/// The code of a protocol.
pub open spec fn proto_code(p: Proto) -> u8 {
    match p {
        Proto::Tcp => 0,
        Proto::Udp => 1,
        Proto::Other => 2,
    }
}

/// The key of a flow: the hash of its two endpoints in sorted order and its protocol.
pub open spec fn flow_key_spec(a: IpAddress, ap: u16, b: IpAddress, bp: u16, p: Proto) -> u64 {
    if endpoint_le(a, ap, b, bp) {
        endpoint_hash(ip_tag(a), ip_num(a), ap, ip_tag(b), ip_num(b), bp, proto_code(p))
    } else {
        endpoint_hash(ip_tag(b), ip_num(b), bp, ip_tag(a), ip_num(a), ap, proto_code(p))
    }
}

fn ip_parts(ip: IpAddress) -> (r: (u8, u128))
    ensures
        r == (ip_tag(ip), ip_num(ip)),
{
    match ip {
        IpAddress::V4(v) => (0, v as u128),
        IpAddress::V6(v) => (1, v),
    }
}

/// The key of a flow between two endpoints, as `flow_key_spec` says: the
/// same for both directions (`lemma_flow_key_direction_stable`).
pub fn compute_flow_key(a_ip: IpAddress, a_port: u16, b_ip: IpAddress, b_port: u16, proto: Proto) -> (k: u64)
    ensures
        k == flow_key_spec(a_ip, a_port, b_ip, b_port, proto),
{
    let (at, av) = ip_parts(a_ip);
    let (bt, bv) = ip_parts(b_ip);
    let code: u8 = match proto {
        Proto::Tcp => 0,
        Proto::Udp => 1,
        Proto::Other => 2,
    };
    let a_first = at < bt || (at == bt && (av < bv || (av == bv && a_port <= b_port)));
    if a_first {
        hash_endpoints(at, av, a_port, bt, bv, b_port, code)
    } else {
        hash_endpoints(bt, bv, b_port, at, av, a_port, code)
    }
}

/// Both directions of a connection get the same key: swapping the endpoints
/// does not change `flow_key_spec`, which `compute_flow_key` returns.
pub proof fn lemma_flow_key_direction_stable(a: IpAddress, ap: u16, b: IpAddress, bp: u16, p: Proto)
    ensures
        flow_key_spec(a, ap, b, bp, p) == flow_key_spec(b, bp, a, ap, p),
{
    if endpoint_le(a, ap, b, bp) && endpoint_le(b, bp, a, ap) {
        assert(ip_tag(a) == ip_tag(b) && ip_num(a) == ip_num(b) && ap == bp);
    }
}

/// `t` without the prefix `p`, when it starts with it.
pub open spec fn strip(t: Seq<char>, p: Seq<char>) -> Option<Seq<char>> {
    if t.len() >= p.len() && t.subrange(0, p.len() as int) == p {
        Some(t.subrange(p.len() as int, t.len() as int))
    } else {
        None
    }
}

/// An unsigned decimal number as std's `str::parse` reads it: an optional
/// `+`, then one or more digits, of value at most `max`.
pub open spec fn parse_uint(s: Seq<char>, max: nat) -> Option<nat> {
    let d = if s.len() > 0 && s[0] == '+' { s.drop_first() } else { s };
    if d.len() == 0 || digit_run(d, 0, 10) != d.len() || digits_value(d, 0, d.len(), 10) > max {
        None
    } else {
        Some(digits_value(d, 0, d.len(), 10))
    }
}

/// Which `key=value` field a token is (0 none, 1 src, 2 dst, 3 sport,
/// 4 dport, 5 bytes) and its value.
pub open spec fn token_field(t: Seq<char>) -> (int, Seq<char>) {
    if strip(t, "src="@) is Some {
        (1, strip(t, "src="@)->0)
    } else if strip(t, "dst="@) is Some {
        (2, strip(t, "dst="@)->0)
    } else if strip(t, "sport="@) is Some {
        (3, strip(t, "sport="@)->0)
    } else if strip(t, "dport="@) is Some {
        (4, strip(t, "dport="@)->0)
    } else if strip(t, "bytes="@) is Some {
        (5, strip(t, "bytes="@)->0)
    } else {
        (0, Seq::empty())
    }
}

/// The addresses of the tokens that are field `kind` (1 or 2) and parse, in order.
pub open spec fn ip_field_values(toks: Seq<Seq<char>>, kind: int) -> Seq<IpAddress>
    decreases toks.len(),
{
    if toks.len() == 0 {
        Seq::empty()
    } else {
        let rest = ip_field_values(toks.drop_last(), kind);
        let (k, v) = token_field(toks.last());
        if k == kind && parse_ip_spec(v) is Some {
            rest.push(parse_ip_spec(v)->0)
        } else {
            rest
        }
    }
}

/// The numbers of the tokens that are field `kind` (3, 4 or 5) and parse within `max`, in order.
pub open spec fn num_field_values(toks: Seq<Seq<char>>, kind: int, max: nat) -> Seq<nat>
    decreases toks.len(),
{
    if toks.len() == 0 {
        Seq::empty()
    } else {
        let rest = num_field_values(toks.drop_last(), kind, max);
        let (k, v) = token_field(toks.last());
        if k == kind && parse_uint(v, max) is Some {
            rest.push(parse_uint(v, max)->0)
        } else {
            rest
        }
    }
}

/// The protocol named by the first token that is `tcp` or `udp`.
pub open spec fn line_proto(toks: Seq<Seq<char>>) -> Proto
    decreases toks.len(),
{
    if toks.len() == 0 {
        Proto::Other
    } else if toks[0] == "tcp"@ {
        Proto::Tcp
    } else if toks[0] == "udp"@ {
        Proto::Udp
    } else {
        line_proto(toks.drop_first())
    }
}

/// The flow that a conntrack line describes: it needs both directions' byte
/// counters and the original direction's addresses and ports.
pub open spec fn parse_line_spec(line: Seq<char>) -> Option<Flow> {
    let toks = words(line);
    let proto = line_proto(toks);
    let src = ip_field_values(toks, 1);
    let dst = ip_field_values(toks, 2);
    let sport = num_field_values(toks, 3, 0xffff);
    let dport = num_field_values(toks, 4, 0xffff);
    let bytes = num_field_values(toks, 5, 0xffff_ffff_ffff_ffff);
    if bytes.len() < 2 || src.len() == 0 || dst.len() == 0 || sport.len() == 0 || dport.len() == 0 {
        None
    } else {
        Some(
            Flow {
                proto,
                orig_src: src[0],
                orig_dst: dst[0],
                orig_bytes: bytes[0] as u64,
                reply_bytes: bytes[1] as u64,
                flow_key: flow_key_spec(src[0], sport[0] as u16, dst[0], dport[0] as u16, proto),
            },
        )
    }
}

/// `t` without the prefix `p`, when it starts with it.
pub fn strip_exec(t: &[char], p: &[char]) -> (r: Option<Vec<char>>)
    ensures
        match r {
            Some(v) => strip(t@, p@) == Some(v@),
            None => strip(t@, p@) is None,
        },
{
    if t.len() < p.len() {
        return None;
    }
    let head = copy_range(t, 0, p.len());
    if !chars_eq(head.as_slice(), p) {
        return None;
    }
    Some(copy_range(t, p.len(), t.len()))
}

proof fn lemma_value_grows(s: Seq<char>, k: nat)
    requires
        k < s.len(),
        digit_of(s[k as int], 10) is Some,
    ensures
        digits_value(s, 0, k + 1, 10) >= digits_value(s, 0, k, 10),
{
}

proof fn lemma_value_mono(s: Seq<char>, j: nat, k: nat)
    requires
        j <= k <= s.len(),
        forall|q: int| 0 <= q < k ==> digit_of(#[trigger] s[q], 10) is Some,
    ensures
        digits_value(s, 0, k, 10) >= digits_value(s, 0, j, 10),
    decreases k - j,
{
    if j < k {
        lemma_value_mono(s, j, (k - 1) as nat);
        lemma_value_grows(s, (k - 1) as nat);
    }
}

proof fn lemma_run_full(s: Seq<char>, pos: int)
    requires
        0 <= pos <= s.len(),
        forall|q: int| pos <= q < s.len() ==> digit_of(#[trigger] s[q], 10) is Some,
    ensures
        digit_run(s, pos, 10) == s.len() - pos,
    decreases s.len() - pos,
{
    if pos < s.len() {
        lemma_run_full(s, pos + 1);
    }
}

/// A run of digits stops at a non-digit.
pub proof fn lemma_run_short(s: Seq<char>, pos: int, q: int)
    requires
        0 <= pos <= q < s.len(),
        digit_of(s[q], 10) is None,
    ensures
        digit_run(s, pos, 10) <= q - pos,
    decreases q - pos,
{
    if pos < q && digit_of(s[pos], 10) is Some {
        lemma_run_short(s, pos + 1, q);
    }
}

/// An unsigned decimal number, as `parse_uint` describes it.
pub fn parse_uint_exec(s: &[char], max: u64) -> (r: Option<u64>)
    ensures
        match r {
            Some(v) => parse_uint(s@, max as nat) == Some(v as nat),
            None => parse_uint(s@, max as nat) is None,
        },
{
    let ghost d = if s@.len() > 0 && s@[0] == '+' { s@.drop_first() } else { s@ };
    let start: usize = if s.len() > 0 && s[0] == '+' { 1 } else { 0 };
    let n = s.len();
    if start == n {
        return None;
    }
    let mut acc: u64 = 0;
    let mut i = start;
    while i < n
        invariant
            start <= i <= n,
            n == s@.len(),
            d == s@.subrange(start as int, n as int),
            d == (if s@.len() > 0 && s@[0] == '+' { s@.drop_first() } else { s@ }),
            forall|q: int| 0 <= q < i - start ==> digit_of(#[trigger] d[q], 10) is Some,
            acc == digits_value(d, 0, (i - start) as nat, 10),
            acc <= max,
        decreases n - i,
    {
        let c = s[i];
        assert(d[i - start] == c);
        if !('0' <= c && c <= '9') {
            proof {
                assert(digit_of(d[i - start], 10) is None);
                lemma_run_short(d, 0, i - start);
                assert(digit_run(d, 0, 10) != d.len());
            }
            return None;
        }
        let digit = (c as u64) - ('0' as u64);
        assert(digit_of(d[i - start], 10) == Some(digit as nat));
        if digit > max || acc > (max - digit) / 10 {
            proof {
                assert forall|q: int| 0 <= q < i - start + 1 implies digit_of(#[trigger] d[q], 10) is Some by {}
                assert(digits_value(d, 0, (i - start + 1) as nat, 10) > max);
                if digit_run(d, 0, 10) == d.len() {
                    assert forall|q: int| 0 <= q < d.len() implies digit_of(#[trigger] d[q], 10) is Some by {
                        crate::ip::lemma_digit_runs_are_digits(d, 0, d.len());
                    }
                    lemma_value_mono(d, (i - start + 1) as nat, d.len());
                }
            }
            return None;
        }
        acc = acc * 10 + digit;
        i = i + 1;
    }
    proof {
        lemma_run_full(d, 0);
        assert(d.len() == n - start);
    }
    Some(acc)
}

/// The characters of a literal.
fn lit(s: &str) -> (r: Vec<char>)
    ensures
        r@ == s@,
{
    chars_of(s)
}

/// Which field a token is and its value, as `token_field` describes it.
fn token_field_exec(t: &[char]) -> (r: (u8, Vec<char>))
    ensures
        (r.0 as int, r.1@) == token_field(t@),
{
    if let Some(v) = strip_exec(t, lit("src=").as_slice()) {
        return (1, v);
    }
    if let Some(v) = strip_exec(t, lit("dst=").as_slice()) {
        return (2, v);
    }
    if let Some(v) = strip_exec(t, lit("sport=").as_slice()) {
        return (3, v);
    }
    if let Some(v) = strip_exec(t, lit("dport=").as_slice()) {
        return (4, v);
    }
    if let Some(v) = strip_exec(t, lit("bytes=").as_slice()) {
        return (5, v);
    }
    (0, Vec::new())
}

/// The protocol named by the first token that is `tcp` or `udp`.
fn find_proto(toks: &Vec<Vec<char>>) -> (p: Proto)
    ensures
        p == line_proto(toks@.map_values(|w: Vec<char>| w@)),
{
    let ghost tv = toks@.map_values(|w: Vec<char>| w@);
    let tcp = lit("tcp");
    let udp = lit("udp");
    let n = toks.len();
    let mut i: usize = 0;
    assert(tv.subrange(0, n as int) =~= tv);
    while i < n
        invariant
            n == toks@.len(),
            tv == toks@.map_values(|w: Vec<char>| w@),
            tcp@ == "tcp"@,
            udp@ == "udp"@,
            i <= n,
            line_proto(tv) == line_proto(tv.subrange(i as int, n as int)),
        decreases n - i,
    {
        let ghost rest = tv.subrange(i as int, n as int);
        assert(rest[0] == toks@[i as int]@);
        assert(rest.drop_first() =~= tv.subrange(i + 1, n as int));
        if chars_eq(toks[i].as_slice(), tcp.as_slice()) {
            return Proto::Tcp;
        }
        if chars_eq(toks[i].as_slice(), udp.as_slice()) {
            return Proto::Udp;
        }
        i = i + 1;
    }
    assert(tv.subrange(n as int, n as int) =~= Seq::<Seq<char>>::empty());
    Proto::Other
}

/// The field values of the tokens, in order.
struct Fields {
    src: Vec<IpAddress>,
    dst: Vec<IpAddress>,
    sport: Vec<u64>,
    dport: Vec<u64>,
    bytes: Vec<u64>,
}

fn collect_fields(toks: &Vec<Vec<char>>) -> (f: Fields)
    ensures
        ({
            let tv = toks@.map_values(|w: Vec<char>| w@);
            &&& f.src@ == ip_field_values(tv, 1)
            &&& f.dst@ == ip_field_values(tv, 2)
            &&& f.sport@.map_values(|x: u64| x as nat) == num_field_values(tv, 3, 0xffff)
            &&& f.dport@.map_values(|x: u64| x as nat) == num_field_values(tv, 4, 0xffff)
            &&& f.bytes@.map_values(|x: u64| x as nat) == num_field_values(tv, 5, 0xffff_ffff_ffff_ffff)
        }),
{
    let ghost tv = toks@.map_values(|w: Vec<char>| w@);
    let n = toks.len();
    let mut src: Vec<IpAddress> = Vec::new();
    let mut dst: Vec<IpAddress> = Vec::new();
    let mut sport: Vec<u64> = Vec::new();
    let mut dport: Vec<u64> = Vec::new();
    let mut bytes: Vec<u64> = Vec::new();
    let mut j: usize = 0;
    assert(sport@.map_values(|x: u64| x as nat) =~= Seq::<nat>::empty());
    assert(dport@.map_values(|x: u64| x as nat) =~= Seq::<nat>::empty());
    assert(bytes@.map_values(|x: u64| x as nat) =~= Seq::<nat>::empty());
    while j < n
        invariant
            n == toks@.len(),
            tv == toks@.map_values(|w: Vec<char>| w@),
            j <= n,
            src@ == ip_field_values(tv.subrange(0, j as int), 1),
            dst@ == ip_field_values(tv.subrange(0, j as int), 2),
            sport@.map_values(|x: u64| x as nat) == num_field_values(tv.subrange(0, j as int), 3, 0xffff),
            dport@.map_values(|x: u64| x as nat) == num_field_values(tv.subrange(0, j as int), 4, 0xffff),
            bytes@.map_values(|x: u64| x as nat) == num_field_values(tv.subrange(0, j as int), 5, 0xffff_ffff_ffff_ffff),
        decreases n - j,
    {
        let ghost pre = tv.subrange(0, j as int);
        let ghost post = tv.subrange(0, j + 1);
        assert(post.drop_last() =~= pre);
        assert(post.last() == toks@[j as int]@);
        let (kind, v) = token_field_exec(toks[j].as_slice());
        if kind == 1 {
            if let Some(ip) = parse_ip_chars(v.as_slice()) {
                src.push(ip);
            }
        } else if kind == 2 {
            if let Some(ip) = parse_ip_chars(v.as_slice()) {
                dst.push(ip);
            }
        } else if kind == 3 {
            if let Some(x) = parse_uint_exec(v.as_slice(), 0xffff) {
                sport.push(x);
            }
        } else if kind == 4 {
            if let Some(x) = parse_uint_exec(v.as_slice(), 0xffff) {
                dport.push(x);
            }
        } else if kind == 5 {
            if let Some(x) = parse_uint_exec(v.as_slice(), 0xffff_ffff_ffff_ffff) {
                bytes.push(x);
            }
        }
        assert(sport@.map_values(|x: u64| x as nat) =~= num_field_values(post, 3, 0xffff));
        assert(dport@.map_values(|x: u64| x as nat) =~= num_field_values(post, 4, 0xffff));
        assert(bytes@.map_values(|x: u64| x as nat) =~= num_field_values(post, 5, 0xffff_ffff_ffff_ffff));
        j = j + 1;
    }
    assert(tv.subrange(0, n as int) =~= tv);
    Fields { src, dst, sport, dport, bytes }
}

impl Flow {
    /// Parses one line of `/proc/net/nf_conntrack`; `None` when the line lacks
    /// either direction's byte counter (accounting off) or an address or port
    /// of the original direction.
    pub fn parse_line(line: &str) -> (r: Option<Flow>)
        ensures
            r == parse_line_spec(line@),
    {
        let cs = chars_of(line);
        Self::parse_line_chars(cs.as_slice())
    }

    /// `parse_line` on a line given as characters.
    pub fn parse_line_chars(cs: &[char]) -> (r: Option<Flow>)
        ensures
            r == parse_line_spec(cs@),
    {
        let toks = words_of(cs);
        let proto = find_proto(&toks);
        let f = collect_fields(&toks);
        if f.bytes.len() < 2 || f.src.len() == 0 || f.dst.len() == 0 || f.sport.len() == 0
            || f.dport.len() == 0 {
            return None;
        }
        let orig_src = f.src[0];
        let orig_dst = f.dst[0];
        let sp = f.sport[0];
        let dp = f.dport[0];
        assert(f.sport@.map_values(|x: u64| x as nat)[0] == sp as nat);
        assert(f.dport@.map_values(|x: u64| x as nat)[0] == dp as nat);
        assert(f.bytes@.map_values(|x: u64| x as nat)[0] == f.bytes@[0] as nat);
        assert(f.bytes@.map_values(|x: u64| x as nat)[1] == f.bytes@[1] as nat);
        let flow_key = compute_flow_key(orig_src, sp as u16, orig_dst, dp as u16, proto);
        Some(Flow { proto, orig_src, orig_dst, orig_bytes: f.bytes[0], reply_bytes: f.bytes[1], flow_key })
    }
}

} // verus!
