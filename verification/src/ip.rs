use vstd::prelude::*;

verus! {

/// An IPv4 or IPv6 address, held as its number.
#[derive(Debug, Clone, Copy, PartialEq, Eq, Structural, Hash)]
pub enum IpAddress {
    V4(u32),
    V6(u128),
}

/// The big-endian number that the bytes spell.
pub open spec fn be_value(s: Seq<u8>) -> nat
    decreases s.len(),
{
    if s.len() == 0 { 0 } else { be_value(s.drop_last()) * 256 + s.last() as nat }
}

/// `256^k`.
pub open spec fn pow256(k: nat) -> nat
    decreases k,
{
    if k == 0 { 1 } else { 256 * pow256((k - 1) as nat) }
}

pub proof fn lemma_be_value_bound(s: Seq<u8>)
    ensures
        be_value(s) < pow256(s.len()),
    decreases s.len(),
{
    if s.len() > 0 {
        lemma_be_value_bound(s.drop_last());
        let p = pow256((s.len() - 1) as nat);
        let v = be_value(s.drop_last());
        assert(v * 256 + s.last() < 256 * p) by (nonlinear_arith)
            requires
                v < p,
                s.last() < 256,
        ;
    }
}

/// The big-endian number spelled by `bytes[from..from + len]`.
pub fn be_bytes(bytes: &[u8], from: usize, len: usize) -> (r: u128)
    requires
        len <= 16,
        from + len <= bytes@.len(),
    ensures
        r == be_value(bytes@.subrange(from as int, from + len)),
{
    let mut acc: u128 = 0;
    let mut k: usize = 0;
    let n = bytes.len();
    while k < len
        invariant
            len <= 16,
            from + len <= bytes@.len(),
            n == bytes@.len(),
            k <= len,
            acc == be_value(bytes@.subrange(from as int, from + k)),
        decreases len - k,
    {
        proof {
            lemma_be_value_bound(bytes@.subrange(from as int, from + k));
            lemma_pow256_mono(k as nat, 15);
            assert(pow256(15) == 0x1000000000000000000000000000000nat) by {
                assert(pow256(0) == 1);
                assert(pow256(1) == 0x100nat);
                assert(pow256(2) == 0x10000nat);
                assert(pow256(3) == 0x1000000nat);
                assert(pow256(4) == 0x100000000nat);
                assert(pow256(5) == 0x10000000000nat);
                assert(pow256(6) == 0x1000000000000nat);
                assert(pow256(7) == 0x100000000000000nat);
                assert(pow256(8) == 0x10000000000000000nat);
                assert(pow256(9) == 0x1000000000000000000nat);
                assert(pow256(10) == 0x100000000000000000000nat);
                assert(pow256(11) == 0x10000000000000000000000nat);
                assert(pow256(12) == 0x1000000000000000000000000nat);
                assert(pow256(13) == 0x100000000000000000000000000nat);
                assert(pow256(14) == 0x10000000000000000000000000000nat);
                assert(pow256(15) == 0x1000000000000000000000000000000nat);
            }
        }
        let ghost pre = bytes@.subrange(from as int, from + k);
        assert(pre.len() == k);
        assert(acc < 0x1000000000000000000000000000000nat);
        assert(bytes@.subrange(from as int, from + k + 1).drop_last() =~= pre);
        let b = bytes[from + k];
        assert(acc * 256 + b < 0x100000000000000000000000000000000int);
        let t = acc * 256;
        acc = t + b as u128;
        k = k + 1;
    }
    acc
}

proof fn lemma_pow256_mono(a: nat, b: nat)
    requires
        a <= b,
    ensures
        pow256(a) <= pow256(b),
    decreases b,
{
    if a < b {
        lemma_pow256_mono(a, (b - 1) as nat);
    }
}

/// The value of `c` as a digit in base 10 or 16 (either case), if it is one.
pub open spec fn digit_of(c: char, radix: nat) -> Option<nat> {
    if '0' <= c && c <= '9' {
        Some((c as nat - '0' as nat) as nat)
    } else if radix == 16 && 'a' <= c && c <= 'f' {
        Some((c as nat - 'a' as nat + 10) as nat)
    } else if radix == 16 && 'A' <= c && c <= 'F' {
        Some((c as nat - 'A' as nat + 10) as nat)
    } else {
        None
    }
}

/// How many digits follow position `pos`.
pub open spec fn digit_run(s: Seq<char>, pos: int, radix: nat) -> nat
    decreases s.len() - pos,
{
    if pos < 0 || pos >= s.len() || digit_of(s[pos], radix) is None {
        0
    } else {
        1 + digit_run(s, pos + 1, radix)
    }
}

/// The number spelled by the `k` digits at `pos`.
pub open spec fn digits_value(s: Seq<char>, pos: int, k: nat, radix: nat) -> nat
    decreases k,
{
    if k == 0 {
        0
    } else {
        digits_value(s, pos, (k - 1) as nat, radix) * radix + digit_of(s[pos + k - 1], radix)->0
    }
}

/// A number of at most `max_digits` digits at `pos` whose value is at most
/// `max_value`; with `allow_zero_prefix` false, `0` may not start a longer
/// number. Gives the value and the position after it.
pub open spec fn read_number(
    s: Seq<char>,
    pos: int,
    radix: nat,
    max_digits: nat,
    allow_zero_prefix: bool,
    max_value: nat,
) -> Option<(nat, int)> {
    let k = digit_run(s, pos, radix);
    if k == 0 || k > max_digits {
        None
    } else if digits_value(s, pos, k, radix) > max_value {
        None
    } else if !allow_zero_prefix && s[pos] == '0' && k > 1 {
        None
    } else {
        Some((digits_value(s, pos, k, radix), pos + k))
    }
}

/// A separator `sep` at `pos` when `index > 0`: the position after it.
pub open spec fn read_sep(s: Seq<char>, pos: int, sep: char, index: nat) -> Option<int> {
    if index == 0 {
        Some(pos)
    } else if 0 <= pos < s.len() && s[pos] == sep {
        Some(pos + 1)
    } else {
        None
    }
}

/// A decimal octet of a dotted IPv4 address.
pub open spec fn read_octet(s: Seq<char>, pos: int, index: nat) -> Option<(nat, int)> {
    match read_sep(s, pos, '.', index) {
        Some(p) => read_number(s, p, 10, 3, false, 255),
        None => None,
    }
}

/// A dotted-quad IPv4 address at `pos`: its number and the position after it.
pub open spec fn read_v4(s: Seq<char>, pos: int) -> Option<(u32, int)> {
    match read_octet(s, pos, 0) {
        Some((a, p1)) => match read_octet(s, p1, 1) {
            Some((b, p2)) => match read_octet(s, p2, 2) {
                Some((c, p3)) => match read_octet(s, p3, 3) {
                    Some((d, p4)) => Some(((((a * 256 + b) * 256 + c) * 256 + d) as u32, p4)),
                    None => None,
                },
                None => None,
            },
            None => None,
        },
        None => None,
    }
}

/// The groups of an IPv6 address read from `pos` as group `i` of at most
/// `limit`: hexadecimal groups of up to four digits separated by `:`, where
/// an embedded IPv4 address may stand for the last two groups. Gives the
/// groups read, the position after them, and whether an IPv4 tail ended them.
pub open spec fn read_groups(s: Seq<char>, pos: int, i: nat, limit: nat) -> (Seq<u16>, int, bool)
    decreases limit - i,
{
    if i >= limit {
        (Seq::empty(), pos, false)
    } else {
        let v4 = if i + 1 < limit {
            match read_sep(s, pos, ':', i) {
                Some(p) => read_v4(s, p),
                None => None,
            }
        } else {
            None
        };
        match v4 {
            Some((v, e)) => (seq![(v / 0x10000) as u16, (v % 0x10000) as u16], e, true),
            None => match read_sep(s, pos, ':', i) {
                Some(p) => match read_number(s, p, 16, 4, true, 0xffff) {
                    Some((g, e)) => {
                        let (rest, e2, b) = read_groups(s, e, i + 1, limit);
                        (seq![g as u16] + rest, e2, b)
                    },
                    None => (Seq::empty(), pos, false),
                },
                None => (Seq::empty(), pos, false),
            },
        }
    }
}

/// The number spelled by 16-bit groups, most significant first.
pub open spec fn groups_value(g: Seq<u16>) -> nat
    decreases g.len(),
{
    if g.len() == 0 { 0 } else { groups_value(g.drop_last()) * 0x10000 + g.last() as nat }
}

/// An IPv6 address at `pos`: eight groups, or fewer with one `::` standing
/// for at least one group of zeros.
pub open spec fn read_v6(s: Seq<char>, pos: int) -> Option<(u128, int)> {
    let (head, p1, head_v4) = read_groups(s, pos, 0, 8);
    if head.len() == 8 {
        Some((groups_value(head) as u128, p1))
    } else if head_v4 {
        None
    } else if 0 <= p1 && p1 + 1 < s.len() && s[p1] == ':' && s[p1 + 1] == ':' {
        let limit = (8 - (head.len() + 1)) as nat;
        let (tail, p2, _) = read_groups(s, p1 + 2, 0, limit);
        let zeros = Seq::new((8 - head.len() - tail.len()) as nat, |i: int| 0u16);
        Some((groups_value(head + zeros + tail) as u128, p2))
    } else {
        None
    }
}

/// The address that `s` spells in full, as `IpAddr`'s parser reads it: an
/// IPv4 dotted quad, else an IPv6 address.
pub open spec fn parse_ip_spec(s: Seq<char>) -> Option<IpAddress> {
    match read_v4(s, 0) {
        Some((v, e)) => if e == s.len() { Some(IpAddress::V4(v)) } else { None },
        None => match read_v6(s, 0) {
            Some((v, e)) => if e == s.len() { Some(IpAddress::V6(v)) } else { None },
            None => None,
        },
    }
}

fn digit_exec(c: char, radix: u32) -> (r: Option<u32>)
    requires
        radix == 10 || radix == 16,
    ensures
        match r {
            Some(d) => digit_of(c, radix as nat) == Some(d as nat) && d < radix,
            None => digit_of(c, radix as nat) is None,
        },
{
    if '0' <= c && c <= '9' {
        Some((c as u32) - ('0' as u32))
    } else if radix == 16 && 'a' <= c && c <= 'f' {
        Some((c as u32) - ('a' as u32) + 10)
    } else if radix == 16 && 'A' <= c && c <= 'F' {
        Some((c as u32) - ('A' as u32) + 10)
    } else {
        None
    }
}

proof fn lemma_digit_run_split(s: Seq<char>, pos: int, j: nat, radix: nat)
    requires
        0 <= pos,
        pos + j <= s.len(),
        forall|q: int| pos <= q < pos + j ==> digit_of(#[trigger] s[q], radix) is Some,
    ensures
        digit_run(s, pos, radix) == j + digit_run(s, pos + j, radix),
    decreases j,
{
    if j > 0 {
        lemma_digit_run_split(s, pos + 1, (j - 1) as nat, radix);
    }
}

/// A number at `pos`, as `read_number` describes it.
fn read_number_exec(
    s: &[char],
    pos: usize,
    radix: u32,
    max_digits: usize,
    allow_zero_prefix: bool,
    max_value: u32,
) -> (r: Option<(u32, usize)>)
    requires
        radix == 10 || radix == 16,
        1 <= max_digits <= 4,
        pos <= s@.len(),
    ensures
        match r {
            Some((v, e)) => read_number(s@, pos as int, radix as nat, max_digits as nat, allow_zero_prefix, max_value as nat)
                == Some((v as nat, e as int)) && e <= s@.len(),
            None => read_number(s@, pos as int, radix as nat, max_digits as nat, allow_zero_prefix, max_value as nat) is None,
        },
{
    let n = s.len();
    let mut j: usize = 0;
    let mut acc: u64 = 0;
    let mut stopped = false;
    while !stopped && j <= max_digits && pos + j < n
        invariant
            n == s@.len(),
            pos <= n,
            j <= max_digits + 1,
            1 <= max_digits <= 4,
            radix == 10 || radix == 16,
            pos + j <= n,
            forall|q: int| pos <= q < pos + j ==> digit_of(#[trigger] s@[q], radix as nat) is Some,
            acc == digits_value(s@, pos as int, j as nat, radix as nat),
            acc < 0x10_0000,
            j <= 4 ==> acc < (if j == 0 { 1int } else if j == 1 { 16int } else if j == 2 { 256int } else if j == 3 { 4096int } else { 65536int }),
            stopped ==> pos + j < n && digit_of(s@[pos + j], radix as nat) is None,
        decreases max_digits + 2 - j - (if stopped { 1int } else { 0int }),
    {
        match digit_exec(s[pos + j], radix) {
            Some(d) => {
                let ghost before = acc;
                if radix == 10 {
                    assert(acc * 10 + d < 0x10_0000);
                    acc = acc * 10 + d as u64;
                } else {
                    assert(acc * 16 + d < 0x10_0000);
                    acc = acc * 16 + d as u64;
                }
                assert(acc == before * radix + d);
                j = j + 1;
            },
            None => {
                stopped = true;
            },
        }
    }
    proof {
        lemma_digit_run_split(s@, pos as int, j as nat, radix as nat);
    }
    if j > max_digits {
        assert(digit_run(s@, pos as int, radix as nat) >= j);
        return None;
    }
    assert(digit_run(s@, pos as int + j, radix as nat) == 0);
    if j == 0 {
        return None;
    }
    if acc > max_value as u64 {
        return None;
    }
    if !allow_zero_prefix && s[pos] == '0' && j > 1 {
        return None;
    }
    Some((acc as u32, pos + j))
}

fn read_sep_exec(s: &[char], pos: usize, sep: char, index: usize) -> (r: Option<usize>)
    requires
        pos <= s@.len(),
    ensures
        match r {
            Some(p) => read_sep(s@, pos as int, sep, index as nat) == Some(p as int) && p <= s@.len(),
            None => read_sep(s@, pos as int, sep, index as nat) is None,
        },
{
    if index == 0 {
        Some(pos)
    } else if pos < s.len() && s[pos] == sep {
        Some(pos + 1)
    } else {
        None
    }
}

fn read_octet_exec(s: &[char], pos: usize, index: usize) -> (r: Option<(u32, usize)>)
    requires
        pos <= s@.len(),
    ensures
        match r {
            Some((v, e)) => read_octet(s@, pos as int, index as nat) == Some((v as nat, e as int)) && e <= s@.len() && v <= 255,
            None => read_octet(s@, pos as int, index as nat) is None,
        },
{
    match read_sep_exec(s, pos, '.', index) {
        Some(p) => read_number_exec(s, p, 10, 3, false, 255),
        None => None,
    }
}

/// A dotted-quad IPv4 address at `pos`, as `read_v4` describes it.
fn read_v4_exec(s: &[char], pos: usize) -> (r: Option<(u32, usize)>)
    requires
        pos <= s@.len(),
    ensures
        match r {
            Some((v, e)) => read_v4(s@, pos as int) == Some((v, e as int)) && e <= s@.len(),
            None => read_v4(s@, pos as int) is None,
        },
{
    let (a, p1) = match read_octet_exec(s, pos, 0) { Some(x) => x, None => return None };
    let (b, p2) = match read_octet_exec(s, p1, 1) { Some(x) => x, None => return None };
    let (c, p3) = match read_octet_exec(s, p2, 2) { Some(x) => x, None => return None };
    let (d, p4) = match read_octet_exec(s, p3, 3) { Some(x) => x, None => return None };
    Some((((a * 256 + b) * 256 + c) * 256 + d, p4))
}

/// The groups of an IPv6 address, as `read_groups` describes them (from group 0).
fn read_groups_exec(s: &[char], pos: usize, limit: usize) -> (r: (Vec<u16>, usize, bool))
    requires
        pos <= s@.len(),
        limit <= 8,
    ensures
        read_groups(s@, pos as int, 0, limit as nat) == (r.0@, r.1 as int, r.2),
        r.1 <= s@.len(),
        r.0@.len() <= limit,
{
    let mut out: Vec<u16> = Vec::new();
    let mut p = pos;
    let mut i: usize = 0;
    loop
        invariant
            p <= s@.len(),
            i <= limit <= 8,
            out@.len() == i,
            ({
                let r = read_groups(s@, p as int, i as nat, limit as nat);
                read_groups(s@, pos as int, 0, limit as nat) == (out@ + r.0, r.1, r.2)
            }),
        decreases limit - i,
    {
        if i >= limit {
            assert(out@ + Seq::<u16>::empty() =~= out@);
            return (out, p, false);
        }
        let v4 = if i + 1 < limit {
            match read_sep_exec(s, p, ':', i) {
                Some(q) => read_v4_exec(s, q),
                None => None,
            }
        } else {
            None
        };
        match v4 {
            Some((v, e)) => {
                out.push((v / 0x10000) as u16);
                out.push((v % 0x10000) as u16);
                proof {
                    let r = read_groups(s@, p as int, i as nat, limit as nat);
                    assert(r.0 =~= seq![(v / 0x10000) as u16, (v % 0x10000) as u16]);
                }
                assert(out@.len() <= limit);
                return (out, e, true);
            },
            None => {
                match read_sep_exec(s, p, ':', i) {
                    Some(q) => match read_number_exec(s, q, 16, 4, true, 0xffff) {
                        Some((g, e)) => {
                            let ghost old_out = out@;
                            out.push(g as u16);
                            proof {
                                let r1 = read_groups(s@, e as int, (i + 1) as nat, limit as nat);
                                assert(old_out + (seq![g as u16] + r1.0) =~= out@ + r1.0);
                            }
                            p = e;
                            i = i + 1;
                        },
                        None => {
                            assert(out@ + Seq::<u16>::empty() =~= out@);
                            return (out, p, false);
                        },
                    },
                    None => {
                        assert(out@ + Seq::<u16>::empty() =~= out@);
                        return (out, p, false);
                    },
                }
            },
        }
    }
}

proof fn lemma_groups_value_bound(g: Seq<u16>)
    ensures
        groups_value(g) < pow256(2 * g.len()),
    decreases g.len(),
{
    if g.len() > 0 {
        lemma_groups_value_bound(g.drop_last());
        let p = pow256((2 * (g.len() - 1)) as nat);
        assert(pow256(2 * g.len()) == p * 0x10000) by {
            assert(pow256((2 * (g.len() - 1) + 1) as nat) == 256 * p);
        }
        let v = groups_value(g.drop_last());
        assert(v * 0x10000 + g.last() < p * 0x10000) by (nonlinear_arith)
            requires
                v < p,
                g.last() < 0x10000,
        ;
    }
}

/// The number spelled by 16-bit groups, most significant first.
fn groups_value_exec(g: &[u16]) -> (r: u128)
    requires
        g@.len() <= 8,
    ensures
        r == groups_value(g@),
{
    let mut acc: u128 = 0;
    let mut k: usize = 0;
    while k < g.len()
        invariant
            g@.len() <= 8,
            k <= g@.len(),
            acc == groups_value(g@.subrange(0, k as int)),
        decreases g@.len() - k,
    {
        proof {
            lemma_groups_value_bound(g@.subrange(0, k as int));
            lemma_pow256_mono((2 * k) as nat, 14);
            assert(pow256(14) == 0x10000000000000000000000000000nat) by {
                assert(pow256(0) == 1);
                assert(pow256(1) == 0x100nat);
                assert(pow256(2) == 0x10000nat);
                assert(pow256(3) == 0x1000000nat);
                assert(pow256(4) == 0x100000000nat);
                assert(pow256(5) == 0x10000000000nat);
                assert(pow256(6) == 0x1000000000000nat);
                assert(pow256(7) == 0x100000000000000nat);
                assert(pow256(8) == 0x10000000000000000nat);
                assert(pow256(9) == 0x1000000000000000000nat);
                assert(pow256(10) == 0x100000000000000000000nat);
                assert(pow256(11) == 0x10000000000000000000000nat);
                assert(pow256(12) == 0x1000000000000000000000000nat);
                assert(pow256(13) == 0x100000000000000000000000000nat);
                assert(pow256(14) == 0x10000000000000000000000000000nat);
            }
        }
        assert(g@.subrange(0, k + 1).drop_last() =~= g@.subrange(0, k as int));
        let t = acc * 0x10000;
        acc = t + g[k] as u128;
        k = k + 1;
    }
    assert(g@.subrange(0, g@.len() as int) =~= g@);
    acc
}

/// An IPv6 address at `pos`, as `read_v6` describes it.
fn read_v6_exec(s: &[char], pos: usize) -> (r: Option<(u128, usize)>)
    requires
        pos <= s@.len(),
    ensures
        match r {
            Some((v, e)) => read_v6(s@, pos as int) == Some((v, e as int)) && e <= s@.len(),
            None => read_v6(s@, pos as int) is None,
        },
{
    let (head, p1, head_v4) = read_groups_exec(s, pos, 8);
    if head.len() == 8 {
        let v = groups_value_exec(head.as_slice());
        return Some((v, p1));
    }
    if head_v4 {
        return None;
    }
    if !(p1 < s.len() && s.len() - p1 > 1 && s[p1] == ':' && s[p1 + 1] == ':') {
        return None;
    }
    let limit = 8 - (head.len() + 1);
    let (tail, p2, _) = read_groups_exec(s, p1 + 2, limit);
    let mut all = head.clone();
    let nz = 8 - head.len() - tail.len();
    let mut z: usize = 0;
    while z < nz
        invariant
            all@ == head@ + Seq::new(z as nat, |i: int| 0u16),
            z <= nz,
        decreases nz - z,
    {
        all.push(0);
        assert(head@ + Seq::new((z + 1) as nat, |i: int| 0u16) =~= (head@ + Seq::new(z as nat, |i: int| 0u16)).push(0));
        z = z + 1;
    }
    let mut t: usize = 0;
    let ghost base = all@;
    while t < tail.len()
        invariant
            all@ == base + tail@.subrange(0, t as int),
            t <= tail@.len(),
        decreases tail@.len() - t,
    {
        all.push(tail[t]);
        assert(base + tail@.subrange(0, t + 1) =~= (base + tail@.subrange(0, t as int)).push(tail@[t as int]));
        t = t + 1;
    }
    assert(tail@.subrange(0, tail@.len() as int) =~= tail@);
    let v = groups_value_exec(all.as_slice());
    Some((v, p2))
}

/// Parses an IPv4 or IPv6 address the way std's `IpAddr` parser does.
pub fn parse_ip(text: &str) -> (r: Option<IpAddress>)
    ensures
        r == parse_ip_spec(text@),
{
    let cs = crate::text::chars_of(text);
    parse_ip_chars(cs.as_slice())
}

/// Parses an IPv4 or IPv6 address given as characters.
pub fn parse_ip_chars(s: &[char]) -> (r: Option<IpAddress>)
    ensures
        r == parse_ip_spec(s@),
{
    match read_v4_exec(s, 0) {
        Some((v, e)) => if e == s.len() { Some(IpAddress::V4(v)) } else { None },
        None => match read_v6_exec(s, 0) {
            Some((v, e)) => if e == s.len() { Some(IpAddress::V6(v)) } else { None },
            None => None,
        },
    }
}

/// The digit character for `d < 16` (lowercase letters above 9).
pub open spec fn digit_char(d: nat) -> char {
    if d < 10 { ('0' as nat + d) as char } else { ('a' as nat + d - 10) as char }
}

/// `n` written in base `radix` (10 or 16) without leading zeros.
pub open spec fn numeral(n: nat, radix: nat) -> Seq<char>
    decreases n,
{
    if radix < 2 || n < radix {
        seq![digit_char(n)]
    } else {
        proof {
            assert(n / radix < n) by (nonlinear_arith)
                requires
                    radix >= 2,
                    n >= radix,
            ;
        }
        numeral(n / radix, radix).push(digit_char(n % radix))
    }
}

/// The dotted-quad text of an IPv4 address.
pub open spec fn v4_text(v: u32) -> Seq<char> {
    numeral((v / 0x100_0000) as nat, 10) + seq!['.'] + numeral(((v / 0x1_0000) % 256) as nat, 10)
        + seq!['.'] + numeral(((v / 256) % 256) as nat, 10) + seq!['.'] + numeral((v % 256) as nat, 10)
}

/// Group `i` (0 = most significant) of an IPv6 address.
pub open spec fn segment(v: u128, i: int) -> nat {
    ((v as nat) / pow256((2 * (7 - i)) as nat)) % 0x10000
}

/// Groups `lo..hi` written in hexadecimal and joined with `:`.
pub open spec fn hex_groups(v: u128, lo: int, hi: int) -> Seq<char>
    decreases hi - lo,
{
    if hi <= lo {
        Seq::empty()
    } else if hi == lo + 1 {
        numeral(segment(v, lo), 16)
    } else {
        hex_groups(v, lo, hi - 1) + seq![':'] + numeral(segment(v, hi - 1), 16)
    }
}

/// The longest run of zero groups (the first of equal length), scanning from
/// group `i` with the current run and the best run so far.
pub open spec fn zero_span(v: u128, i: int, cur_start: int, cur_len: int, best_start: int, best_len: int) -> (int, int)
    decreases 8 - i,
{
    if i >= 8 {
        (best_start, best_len)
    } else if segment(v, i) == 0 {
        let cs = if cur_len == 0 { i } else { cur_start };
        let cl = cur_len + 1;
        if cl > best_len {
            zero_span(v, i + 1, cs, cl, cs, cl)
        } else {
            zero_span(v, i + 1, cs, cl, best_start, best_len)
        }
    } else {
        zero_span(v, i + 1, 0, 0, best_start, best_len)
    }
}

/// The text of an IPv6 address as std displays it: an IPv4-mapped address as
/// `::ffff:` and a dotted quad; otherwise lowercase hexadecimal groups with
/// the longest run of two or more zero groups written as `::`.
pub open spec fn v6_text(v: u128) -> Seq<char> {
    if v / 0x1_0000_0000 == 0xffff {
        "::ffff:"@ + v4_text((v % 0x1_0000_0000) as u32)
    } else {
        let (start, len) = zero_span(v, 0, 0, 0, 0, 0);
        if len > 1 {
            hex_groups(v, 0, start) + seq![':', ':'] + hex_groups(v, start + len, 8)
        } else {
            hex_groups(v, 0, 8)
        }
    }
}

/// The text of an address as std displays it.
pub open spec fn ip_text(ip: IpAddress) -> Seq<char> {
    match ip {
        IpAddress::V4(v) => v4_text(v),
        IpAddress::V6(v) => v6_text(v),
    }
}

/// Appends `n` written in base `radix`.
fn push_numeral(out: &mut Vec<char>, n: u32, radix: u32)
    requires
        radix == 10 || radix == 16,
    ensures
        final(out)@ == old(out)@ + numeral(n as nat, radix as nat),
    decreases n,
{
    if n < radix {
        out.push(digit_char_exec(n));
        assert(old(out)@.push(digit_char(n as nat)) =~= old(out)@ + numeral(n as nat, radix as nat));
    } else {
        push_numeral(out, n / radix, radix);
        out.push(digit_char_exec(n % radix));
        assert(old(out)@ + numeral(n as nat, radix as nat) =~= (old(out)@ + numeral((n / radix) as nat, radix as nat)).push(
            digit_char((n % radix) as nat),
        ));
    }
}

fn digit_char_exec(d: u32) -> (c: char)
    requires
        d < 16,
    ensures
        c == digit_char(d as nat),
{
    if d < 10 {
        char_of(('0' as u32) + d)
    } else {
        char_of(('a' as u32) + d - 10)
    }
}

/// The character with an ASCII code.
fn char_of(code: u32) -> (c: char)
    requires
        code < 128,
    ensures
        c == code as char,
{
    let b: u8 = code as u8;
    b as char
}

fn push_v4(out: &mut Vec<char>, v: u32)
    ensures
        final(out)@ == old(out)@ + v4_text(v),
{
    push_numeral(out, v / 0x100_0000, 10);
    out.push('.');
    push_numeral(out, (v / 0x1_0000) % 256, 10);
    out.push('.');
    push_numeral(out, (v / 256) % 256, 10);
    out.push('.');
    push_numeral(out, v % 256, 10);
    assert(out@ =~= old(out)@ + v4_text(v));
}

/// The eight groups of an IPv6 address, most significant first.
fn segments_exec(v: u128) -> (g: Vec<u32>)
    ensures
        g@.len() == 8,
        forall|i: int| 0 <= i < 8 ==> #[trigger] g@[i] == segment(v, i),
{
    let mut g: Vec<u32> = Vec::new();
    let mut d: u128 = 0x10000000000000000000000000000;
    proof {
        assert(pow256(14) == 0x10000000000000000000000000000nat) by {
            assert(pow256(0) == 1);
            assert(pow256(1) == 0x100nat);
            assert(pow256(2) == 0x10000nat);
            assert(pow256(3) == 0x1000000nat);
            assert(pow256(4) == 0x100000000nat);
            assert(pow256(5) == 0x10000000000nat);
            assert(pow256(6) == 0x1000000000000nat);
            assert(pow256(7) == 0x100000000000000nat);
            assert(pow256(8) == 0x10000000000000000nat);
            assert(pow256(9) == 0x1000000000000000000nat);
            assert(pow256(10) == 0x100000000000000000000nat);
            assert(pow256(11) == 0x10000000000000000000000nat);
            assert(pow256(12) == 0x1000000000000000000000000nat);
            assert(pow256(13) == 0x100000000000000000000000000nat);
            assert(pow256(14) == 0x10000000000000000000000000000nat);
        }
    }
    let mut i: usize = 0;
    while i < 8
        invariant
            i <= 8,
            g@.len() == i,
            i < 8 ==> d == pow256((2 * (7 - i)) as nat),
            i < 8 ==> d >= 1,
            forall|j: int| 0 <= j < i ==> #[trigger] g@[j] == segment(v, j),
        decreases 8 - i,
    {
        let x = (v / d) % 0x10000;
        g.push(x as u32);
        if i < 7 {
            proof {
                let k = (2 * (7 - i - 1)) as nat;
                assert(pow256((k + 2) as nat) == 256 * pow256((k + 1) as nat));
                assert(pow256((k + 1) as nat) == 256 * pow256(k));
                assert(pow256((2 * (7 - i)) as nat) == pow256(k) * 0x10000);
            }
            d = d / 0x10000;
        }
        i = i + 1;
    }
    g
}

/// Appends groups `lo..hi` in hexadecimal joined with `:`.
fn push_hex_groups(out: &mut Vec<char>, v: u128, g: &Vec<u32>, lo: usize, hi: usize)
    requires
        g@.len() == 8,
        forall|i: int| 0 <= i < 8 ==> #[trigger] g@[i] == segment(v, i),
        lo <= hi <= 8,
    ensures
        final(out)@ == old(out)@ + hex_groups(v, lo as int, hi as int),
{
    let mut k = lo;
    while k < hi
        invariant
            lo <= k <= hi <= 8,
            g@.len() == 8,
            forall|i: int| 0 <= i < 8 ==> #[trigger] g@[i] == segment(v, i),
            out@ == old(out)@ + hex_groups(v, lo as int, k as int),
        decreases hi - k,
    {
        let ghost before = out@;
        if k > lo {
            out.push(':');
        }
        assert(g@[k as int] == segment(v, k as int));
        assert(g@[k as int] < 0x10000);
        push_numeral(out, g[k], 16);
        if k == lo {
            assert(out@ =~= old(out)@ + hex_groups(v, lo as int, k + 1));
        } else {
            assert(out@ =~= old(out)@ + hex_groups(v, lo as int, k + 1));
        }
        k = k + 1;
    }
}

/// The text of an IPv6 address.
fn v6_chars(v: u128) -> (r: Vec<char>)
    ensures
        r@ == v6_text(v),
{
    let mut out: Vec<char> = Vec::new();
    if v / 0x1_0000_0000 == 0xffff {
        out.push(':');
        out.push(':');
        out.push('f');
        out.push('f');
        out.push('f');
        out.push('f');
        out.push(':');
        push_v4(&mut out, (v % 0x1_0000_0000) as u32);
        proof {
            reveal_strlit("::ffff:");
        }
        assert(out@ =~= v6_text(v));
        return out;
    }
    let g = segments_exec(v);
    let mut best_start: usize = 0;
    let mut best_len: usize = 0;
    let mut cur_start: usize = 0;
    let mut cur_len: usize = 0;
    let mut i: usize = 0;
    while i < 8
        invariant
            i <= 8,
            g@.len() == 8,
            forall|j: int| 0 <= j < 8 ==> #[trigger] g@[j] == segment(v, j),
            cur_len <= i,
            best_len <= i,
            cur_start <= i,
            best_start + best_len <= 8,
            best_start <= 8,
            zero_span(v, 0, 0, 0, 0, 0) == zero_span(v, i as int, cur_start as int, cur_len as int, best_start as int, best_len as int),
            cur_len > 0 ==> cur_start + cur_len == i,
            best_len > 0 ==> best_start + best_len <= i,
        decreases 8 - i,
    {
        if g[i] == 0 {
            if cur_len == 0 {
                cur_start = i;
            }
            cur_len = cur_len + 1;
            if cur_len > best_len {
                best_start = cur_start;
                best_len = cur_len;
            }
        } else {
            cur_start = 0;
            cur_len = 0;
        }
        i = i + 1;
    }
    if best_len > 1 {
        push_hex_groups(&mut out, v, &g, 0, best_start);
        out.push(':');
        out.push(':');
        let ghost mid = out@;
        push_hex_groups(&mut out, v, &g, best_start + best_len, 8);
        assert(out@ =~= v6_text(v));
    } else {
        push_hex_groups(&mut out, v, &g, 0, 8);
        assert(out@ =~= v6_text(v));
    }
    out
}

/// The text of an address as std displays it.
pub fn ip_to_string(ip: &IpAddress) -> (r: String)
    ensures
        r@ == ip_text(*ip),
{
    let cs = match ip {
        IpAddress::V4(v) => {
            let mut out: Vec<char> = Vec::new();
            push_v4(&mut out, *v);
            assert(out@ =~= v4_text(*v));
            out
        },
        IpAddress::V6(v) => v6_chars(*v),
    };
    crate::text::string_of(cs.as_slice())
}

/// When the whole run from `pos` covers the rest of `s`, every character there is a digit.
pub proof fn lemma_digit_runs_are_digits(s: Seq<char>, pos: int, len: nat)
    requires
        0 <= pos,
        pos + len == s.len(),
        digit_run(s, pos, 10) == len,
    ensures
        forall|q: int| pos <= q < s.len() ==> digit_of(#[trigger] s[q], 10) is Some,
    decreases len,
{
    if len > 0 {
        lemma_digit_runs_are_digits(s, pos + 1, (len - 1) as nat);
    }
}

} // verus!
