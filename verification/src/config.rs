use vstd::prelude::*;
use crate::classify::IpNet;
use crate::db::{default_retention, Retention};
use crate::flow::{parse_uint, parse_uint_exec, strip, strip_exec};
use crate::ip::{digit_of, digit_run, digits_value, parse_ip_chars, parse_ip_spec, IpAddress};
use crate::text::{
    chars_eq, chars_of, copy_range, is_ws, is_ws_exec, lines, lines_of, run_until, run_until_ws, skip_word,
    string_of, trim, trim_of, words, words_of,
};

verus! {

/// The daemon's settings.
#[derive(Debug, Clone)]
pub struct Config {
    pub enabled: bool,
    pub sample_interval: u64,
    pub lan_prefixes: Vec<IpNet>,
    pub retention: Retention,
    pub db_path: String,
    pub dns_stats_enabled: bool,
    pub dns_iface: String,
    pub dns_flush_secs: u64,
    pub dns_top_n: u64,
}

/// The settings' contents.
pub struct ConfigModel {
    pub enabled: bool,
    pub sample_interval: u64,
    pub lan_prefixes: Seq<IpNet>,
    pub retention: Retention,
    pub db_path: Seq<char>,
    pub dns_stats_enabled: bool,
    pub dns_iface: Seq<char>,
    pub dns_flush_secs: u64,
    pub dns_top_n: u64,
}

pub open spec fn config_model(c: Config) -> ConfigModel {
    ConfigModel {
        enabled: c.enabled,
        sample_interval: c.sample_interval,
        lan_prefixes: c.lan_prefixes@,
        retention: c.retention,
        db_path: c.db_path@,
        dns_stats_enabled: c.dns_stats_enabled,
        dns_iface: c.dns_iface@,
        dns_flush_secs: c.dns_flush_secs,
        dns_top_n: c.dns_top_n,
    }
}

/// 192.168.1.0/24.
pub open spec fn default_lan() -> IpNet {
    IpNet { addr: IpAddress::V4(0xc0a8_0100), prefix_len: 24 }
}

/// The settings without a configuration file: enabled, 2 s sampling, the
/// 192.168.1.0/24 LAN, default retention, the database on persistent flash,
/// DNS statistics off on `br-lan`, flushed every 60 s, top 50.
pub open spec fn default_model() -> ConfigModel {
    ConfigModel {
        enabled: true,
        sample_interval: 2,
        lan_prefixes: seq![default_lan()],
        retention: Retention { min_secs: 172800i64, hour_secs: 3024000i64, day_secs: 34128000i64, dns_days: 34128000i64 },
        db_path: "/etc/overwatch/overwatch.db"@,
        dns_stats_enabled: false,
        dns_iface: "br-lan"@,
        dns_flush_secs: 60,
        dns_top_n: 50,
    }
}

pub fn default_config() -> (c: Config)
    ensures
        config_model(c) == default_model(),
{
    let retention = default_retention();
    let c = Config {
        enabled: true,
        sample_interval: 2,
        lan_prefixes: vec![IpNet { addr: IpAddress::V4(0xc0a8_0100), prefix_len: 24 }],
        retention,
        db_path: "/etc/overwatch/overwatch.db".to_owned(),
        dns_stats_enabled: false,
        dns_iface: "br-lan".to_owned(),
        dns_flush_secs: 60,
        dns_top_n: 50,
    };
    assert(c.lan_prefixes@ =~= seq![default_lan()]);
    c
}

/// Whether `c` is a quote character.
pub open spec fn is_quote(c: char) -> bool {
    c == '\'' || c == '"'
}

pub open spec fn strip_quotes_start(s: Seq<char>) -> Seq<char>
    decreases s.len(),
{
    if s.len() > 0 && is_quote(s[0]) { strip_quotes_start(s.drop_first()) } else { s }
}

pub open spec fn strip_quotes_end(s: Seq<char>) -> Seq<char>
    decreases s.len(),
{
    if s.len() > 0 && is_quote(s.last()) { strip_quotes_end(s.drop_last()) } else { s }
}

/// A value without surrounding whitespace and then without surrounding quotes.
pub open spec fn unquote_spec(s: Seq<char>) -> Seq<char> {
    strip_quotes_end(strip_quotes_start(trim(s)))
}

/// One `config` section: its type and its option and list lines in order.
pub struct SectionModel {
    pub kind: Seq<char>,
    pub options: Seq<(Seq<char>, Seq<char>)>,
}

/// The key and value of an `option`/`list` line's remainder: split at its
/// first whitespace character; `None` when there is none.
pub open spec fn key_value(rest: Seq<char>) -> Option<(Seq<char>, Seq<char>)> {
    let i = run_until_ws(rest);
    if i >= rest.len() {
        None
    } else {
        Some((rest.subrange(0, i as int), unquote_spec(rest.subrange((i + 1) as int, rest.len() as int))))
    }
}

/// The sections after one more line of a UCI file.
pub open spec fn sections_step(secs: Seq<SectionModel>, line: Seq<char>) -> Seq<SectionModel> {
    let l = trim(line);
    if strip(l, "config "@) is Some {
        let w = words(strip(l, "config "@)->0);
        let kind = if w.len() > 0 { w[0] } else { Seq::empty() };
        secs.push(SectionModel { kind, options: Seq::empty() })
    } else {
        let rest = if strip(l, "option "@) is Some { strip(l, "option "@) } else { strip(l, "list "@) };
        match rest {
            Some(r) => match key_value(r) {
                Some(kv) => if secs.len() > 0 {
                    let last = secs.last();
                    secs.drop_last().push(SectionModel { kind: last.kind, options: last.options.push(kv) })
                } else {
                    secs
                },
                None => secs,
            },
            None => secs,
        }
    }
}

pub open spec fn sections_fold(ls: Seq<Seq<char>>) -> Seq<SectionModel>
    decreases ls.len(),
{
    if ls.len() == 0 { Seq::empty() } else { sections_step(sections_fold(ls.drop_last()), ls.last()) }
}

/// The sections of a UCI file.
pub open spec fn sections_of(text: Seq<char>) -> Seq<SectionModel> {
    sections_fold(lines(text))
}

/// The value of the first option named `key`.
pub open spec fn get_spec(opts: Seq<(Seq<char>, Seq<char>)>, key: Seq<char>) -> Option<Seq<char>>
    decreases opts.len(),
{
    if opts.len() == 0 {
        None
    } else if opts[0].0 == key {
        Some(opts[0].1)
    } else {
        get_spec(opts.drop_first(), key)
    }
}

/// The values of all options named `key`, in order.
pub open spec fn get_all_spec(opts: Seq<(Seq<char>, Seq<char>)>, key: Seq<char>) -> Seq<Seq<char>>
    decreases opts.len(),
{
    if opts.len() == 0 {
        Seq::empty()
    } else {
        let rest = get_all_spec(opts.drop_last(), key);
        if opts.last().0 == key { rest.push(opts.last().1) } else { rest }
    }
}

/// The first section of type `overwatch`.
pub open spec fn find_overwatch(secs: Seq<SectionModel>) -> Option<SectionModel>
    decreases secs.len(),
{
    if secs.len() == 0 {
        None
    } else if secs[0].kind == "overwatch"@ {
        Some(secs[0])
    } else {
        find_overwatch(secs.drop_first())
    }
}

/// A signed decimal number as std's `str::parse::<i64>` reads it.
pub open spec fn parse_int(s: Seq<char>) -> Option<int> {
    if s.len() > 0 && s[0] == '-' {
        let d = s.drop_first();
        if d.len() == 0 || digit_run(d, 0, 10) != d.len() || digits_value(d, 0, d.len(), 10) > 0x8000_0000_0000_0000 {
            None
        } else {
            Some(-digits_value(d, 0, d.len(), 10))
        }
    } else {
        match parse_uint(s, 0x7fff_ffff_ffff_ffff) {
            Some(v) => Some(v as int),
            None => None,
        }
    }
}

/// A network written `address/length`.
pub open spec fn parse_prefix_spec(s: Seq<char>) -> Option<IpNet> {
    let i = run_until(s, '/');
    if i >= s.len() {
        None
    } else {
        match (parse_ip_spec(trim(s.subrange(0, i as int))), parse_uint(trim(s.subrange((i + 1) as int, s.len() as int)), 255)) {
            (Some(a), Some(l)) => Some(IpNet { addr: a, prefix_len: l as u8 }),
            _ => None,
        }
    }
}

/// The networks among the values that parse, in order.
pub open spec fn prefixes_of(vals: Seq<Seq<char>>) -> Seq<IpNet>
    decreases vals.len(),
{
    if vals.len() == 0 {
        Seq::empty()
    } else {
        let rest = prefixes_of(vals.drop_last());
        match parse_prefix_spec(vals.last()) {
            Some(n) => rest.push(n),
            None => rest,
        }
    }
}

/// A retention option in units of `unit` seconds, when it parses and is not negative.
pub open spec fn retention_option(opts: Seq<(Seq<char>, Seq<char>)>, key: Seq<char>) -> Option<int> {
    match get_spec(opts, key) {
        Some(v) => match parse_int(v) {
            Some(x) => if x >= 0 { Some(x) } else { None },
            None => None,
        },
        None => None,
    }
}

/// An unsigned option, when it parses.
pub open spec fn u64_option(opts: Seq<(Seq<char>, Seq<char>)>, key: Seq<char>) -> Option<u64> {
    match get_spec(opts, key) {
        Some(v) => match parse_uint(v, 0xffff_ffff_ffff_ffff) {
            Some(x) => Some(x as u64),
            None => None,
        },
        None => None,
    }
}

/// Whether the retention options, converted to seconds, fit in `i64`.
pub open spec fn retention_fits(text: Seq<char>) -> bool {
    match find_overwatch(sections_of(text)) {
        Some(g) => {
            &&& (retention_option(g.options, "retention_hours_min"@) matches Some(x) ==> x * 3600 <= i64::MAX)
            &&& (retention_option(g.options, "retention_days_hour"@) matches Some(x) ==> x * 86400 <= i64::MAX)
            &&& (retention_option(g.options, "retention_days_day"@) matches Some(x) ==> x * 86400 <= i64::MAX)
        },
        None => true,
    }
}

/// The settings that a UCI file gives: the defaults, with each option of the
/// first `overwatch` section that is present and valid applied. Negative
/// retention values are ignored; `lan_prefix` lists replace the default LAN
/// when at least one of them parses.
pub open spec fn uci_model(text: Seq<char>) -> ConfigModel {
    let d = default_model();
    match find_overwatch(sections_of(text)) {
        None => d,
        Some(g) => {
            let o = g.options;
            let prefixes = prefixes_of(get_all_spec(o, "lan_prefix"@));
            ConfigModel {
                enabled: match get_spec(o, "enabled"@) {
                    Some(v) => v == "1"@,
                    None => d.enabled,
                },
                sample_interval: match u64_option(o, "sample_interval"@) {
                    Some(v) => v,
                    None => d.sample_interval,
                },
                lan_prefixes: if prefixes.len() > 0 { prefixes } else { d.lan_prefixes },
                retention: Retention {
                    min_secs: match retention_option(o, "retention_hours_min"@) {
                        Some(x) => (x * 3600) as i64,
                        None => d.retention.min_secs,
                    },
                    hour_secs: match retention_option(o, "retention_days_hour"@) {
                        Some(x) => (x * 86400) as i64,
                        None => d.retention.hour_secs,
                    },
                    day_secs: match retention_option(o, "retention_days_day"@) {
                        Some(x) => (x * 86400) as i64,
                        None => d.retention.day_secs,
                    },
                    dns_days: d.retention.dns_days,
                },
                db_path: match get_spec(o, "db_path"@) {
                    Some(v) => v,
                    None => d.db_path,
                },
                dns_stats_enabled: match get_spec(o, "dns_stats_enabled"@) {
                    Some(v) => v == "1"@,
                    None => d.dns_stats_enabled,
                },
                dns_iface: match get_spec(o, "dns_iface"@) {
                    Some(v) => v,
                    None => d.dns_iface,
                },
                dns_flush_secs: match u64_option(o, "dns_flush_secs"@) {
                    Some(v) => v,
                    None => d.dns_flush_secs,
                },
                dns_top_n: match u64_option(o, "dns_top_n"@) {
                    Some(v) => v,
                    None => d.dns_top_n,
                },
            }
        },
    }
}

/// A value without surrounding whitespace and then without surrounding quotes.
fn unquote(s: &[char]) -> (r: Vec<char>)
    ensures
        r@ == unquote_spec(s@),
{
    let t = trim_of(s);
    let n = t.len();
    let mut a: usize = 0;
    assert(t@.subrange(0, n as int) =~= t@);
    while a < n && (t[a] == '\'' || t[a] == '"')
        invariant
            a <= n,
            n == t@.len(),
            strip_quotes_start(t@.subrange(a as int, n as int)) == strip_quotes_start(t@),
        decreases n - a,
    {
        assert(t@.subrange(a as int, n as int).drop_first() =~= t@.subrange(a + 1, n as int));
        a = a + 1;
    }
    let mut b = n;
    while b > a && (t[b - 1] == '\'' || t[b - 1] == '"')
        invariant
            a <= b <= n,
            n == t@.len(),
            strip_quotes_end(t@.subrange(a as int, b as int)) == strip_quotes_end(t@.subrange(a as int, n as int)),
        decreases b,
    {
        assert(t@.subrange(a as int, b as int).drop_last() =~= t@.subrange(a as int, b - 1));
        b = b - 1;
    }
    copy_range(t.as_slice(), a, b)
}

/// One `config` section.
struct Section {
    kind: Vec<char>,
    options: Vec<(Vec<char>, Vec<char>)>,
}

spec fn options_model(o: Seq<(Vec<char>, Vec<char>)>) -> Seq<(Seq<char>, Seq<char>)> {
    o.map_values(|p: (Vec<char>, Vec<char>)| (p.0@, p.1@))
}

spec fn section_model(s: Section) -> SectionModel {
    SectionModel { kind: s.kind@, options: options_model(s.options@) }
}

spec fn sections_model(s: Seq<Section>) -> Seq<SectionModel> {
    s.map_values(|x: Section| section_model(x))
}

fn add_line(secs: &mut Vec<Section>, line: &[char])
    ensures
        sections_model(final(secs)@) == sections_step(sections_model(old(secs)@), line@),
{
    let l = trim_of(line);
    let ghost before = sections_model(secs@);
    if let Some(rest) = strip_exec(l.as_slice(), chars_of("config ").as_slice()) {
        let w = words_of(rest.as_slice());
        assert(w@.map_values(|x: Vec<char>| x@) == words(rest@));
        let kind = if w.len() > 0 {
            assert(w@.map_values(|x: Vec<char>| x@)[0] == w@[0]@);
            copy_range(w[0].as_slice(), 0, w[0].len())
        } else {
            Vec::new()
        };
        let ghost fresh = SectionModel {
            kind: if words(rest@).len() > 0 { words(rest@)[0] } else { Seq::empty() },
            options: Seq::empty(),
        };
        assert(kind@ =~= fresh.kind);
        let sec = Section { kind, options: Vec::new() };
        assert(options_model(sec.options@) =~= Seq::<(Seq<char>, Seq<char>)>::empty());
        assert(section_model(sec) == fresh);
        let ghost old_secs = secs@;
        secs.push(sec);
        assert(secs@ == old_secs.push(sec));
        assert(sections_model(secs@) =~= before.push(fresh));
        return;
    }
    let rest = match strip_exec(l.as_slice(), chars_of("option ").as_slice()) {
        Some(r) => Some(r),
        None => strip_exec(l.as_slice(), chars_of("list ").as_slice()),
    };
    match rest {
        Some(r) => {
            let i = skip_word(r.as_slice(), 0);
            assert(r@.subrange(0, r@.len() as int) =~= r@);
            if i >= r.len() {
                return;
            }
            let k = copy_range(r.as_slice(), 0, i);
            let tail = copy_range(r.as_slice(), i + 1, r.len());
            let v = unquote(tail.as_slice());
            if secs.len() > 0 {
                let mut last = secs.pop().unwrap();
                let ghost last0 = section_model(last);
                last.options.push((k, v));
                assert(options_model(last.options@) =~= last0.options.push((k@, v@)));
                secs.push(last);
                assert(sections_model(secs@) =~= before.drop_last().push(SectionModel {
                    kind: last0.kind,
                    options: last0.options.push((k@, v@)),
                }));
            }
        },
        None => {},
    }
}

fn split_sections(text: &str) -> (r: Vec<Section>)
    ensures
        sections_model(r@) == sections_of(text@),
{
    let cs = chars_of(text);
    let ls = lines_of(cs.as_slice());
    let ghost lv = ls@.map_values(|w: Vec<char>| w@);
    let mut out: Vec<Section> = Vec::new();
    let mut i: usize = 0;
    assert(sections_model(out@) =~= Seq::<SectionModel>::empty());
    while i < ls.len()
        invariant
            lv == ls@.map_values(|w: Vec<char>| w@),
            lv == lines(text@),
            i <= ls@.len(),
            sections_model(out@) == sections_fold(lv.subrange(0, i as int)),
        decreases ls@.len() - i,
    {
        assert(lv.subrange(0, i + 1).drop_last() =~= lv.subrange(0, i as int));
        assert(lv.subrange(0, i + 1).last() == ls@[i as int]@);
        add_line(&mut out, ls[i].as_slice());
        i = i + 1;
    }
    assert(lv.subrange(0, ls@.len() as int) =~= lv);
    out
}

/// The value of the first option named `key`.
fn get(sec: &Section, key: &[char]) -> (r: Option<Vec<char>>)
    ensures
        match r {
            Some(v) => get_spec(section_model(*sec).options, key@) == Some(v@),
            None => get_spec(section_model(*sec).options, key@) is None,
        },
{
    let ghost o = section_model(*sec).options;
    let n = sec.options.len();
    let mut i: usize = 0;
    assert(o.subrange(0, n as int) =~= o);
    while i < n
        invariant
            n == sec.options@.len(),
            o == options_model(sec.options@),
            i <= n,
            get_spec(o, key@) == get_spec(o.subrange(i as int, n as int), key@),
        decreases n - i,
    {
        let ghost rest = o.subrange(i as int, n as int);
        assert(rest[0] == (sec.options@[i as int].0@, sec.options@[i as int].1@));
        assert(rest.drop_first() =~= o.subrange(i + 1, n as int));
        if chars_eq(sec.options[i].0.as_slice(), key) {
            let v = copy_range(sec.options[i].1.as_slice(), 0, sec.options[i].1.len());
            assert(v@ =~= sec.options@[i as int].1@);
            return Some(v);
        }
        i = i + 1;
    }
    assert(o.subrange(n as int, n as int) =~= Seq::<(Seq<char>, Seq<char>)>::empty());
    None
}

/// The values of all options named `key`, in order.
fn get_all(sec: &Section, key: &[char]) -> (r: Vec<Vec<char>>)
    ensures
        r@.map_values(|w: Vec<char>| w@) == get_all_spec(section_model(*sec).options, key@),
{
    let ghost o = section_model(*sec).options;
    let n = sec.options.len();
    let mut out: Vec<Vec<char>> = Vec::new();
    let mut i: usize = 0;
    assert(out@.map_values(|w: Vec<char>| w@) =~= Seq::<Seq<char>>::empty());
    while i < n
        invariant
            n == sec.options@.len(),
            o == options_model(sec.options@),
            i <= n,
            out@.map_values(|w: Vec<char>| w@) == get_all_spec(o.subrange(0, i as int), key@),
        decreases n - i,
    {
        assert(o.subrange(0, i + 1).drop_last() =~= o.subrange(0, i as int));
        assert(o.subrange(0, i + 1).last() == (sec.options@[i as int].0@, sec.options@[i as int].1@));
        let ghost before = out@.map_values(|w: Vec<char>| w@);
        if chars_eq(sec.options[i].0.as_slice(), key) {
            let v = copy_range(sec.options[i].1.as_slice(), 0, sec.options[i].1.len());
            assert(v@ =~= sec.options@[i as int].1@);
            out.push(v);
            assert(out@.map_values(|w: Vec<char>| w@) =~= before.push(v@));
        }
        i = i + 1;
    }
    assert(o.subrange(0, n as int) =~= o);
    out
}

/// A signed decimal number, as `parse_int` describes it.
fn parse_i64(s: &[char]) -> (r: Option<i64>)
    ensures
        match r {
            Some(v) => parse_int(s@) == Some(v as int),
            None => parse_int(s@) is None,
        },
{
    if s.len() > 0 && s[0] == '-' {
        let d = copy_range(s, 1, s.len());
        assert(d@ =~= s@.drop_first());
        if d.len() > 0 && d[0] == '+' {
            assert(digit_of(d@[0], 10) is None);
            proof {
                crate::flow::lemma_run_short(d@, 0, 0);
            }
            return None;
        }
        match parse_uint_exec(d.as_slice(), 0x8000_0000_0000_0000) {
            Some(v) => {
                if v == 0x8000_0000_0000_0000 {
                    Some(i64::MIN)
                } else {
                    Some(-(v as i64))
                }
            },
            None => None,
        }
    } else {
        match parse_uint_exec(s, 0x7fff_ffff_ffff_ffff) {
            Some(v) => Some(v as i64),
            None => None,
        }
    }
}

/// A network written `address/length`.
fn parse_prefix(s: &[char]) -> (r: Option<IpNet>)
    ensures
        r == parse_prefix_spec(s@),
{
    let n = s.len();
    let mut i: usize = 0;
    assert(s@.subrange(0, n as int) =~= s@);
    while i < n && s[i] != '/'
        invariant
            i <= n,
            n == s@.len(),
            run_until(s@, '/') == i + run_until(s@.subrange(i as int, n as int), '/'),
        decreases n - i,
    {
        assert(s@.subrange(i as int, n as int).drop_first() =~= s@.subrange(i + 1, n as int));
        i = i + 1;
    }
    if i >= n {
        return None;
    }
    let a = copy_range(s, 0, i);
    let l = copy_range(s, i + 1, n);
    let at = trim_of(a.as_slice());
    let lt = trim_of(l.as_slice());
    match (parse_ip_chars(at.as_slice()), parse_uint_exec(lt.as_slice(), 255)) {
        (Some(addr), Some(len)) => Some(IpNet { addr, prefix_len: len as u8 }),
        _ => None,
    }
}

fn option_u64(g: &Section, key: &str) -> (r: Option<u64>)
    ensures
        r == u64_option(section_model(*g).options, key@),
{
    match get(g, chars_of(key).as_slice()) {
        Some(v) => parse_uint_exec(v.as_slice(), 0xffff_ffff_ffff_ffff),
        None => None,
    }
}

fn option_retention(g: &Section, key: &str) -> (r: Option<i64>)
    ensures
        match r {
            Some(x) => retention_option(section_model(*g).options, key@) == Some(x as int),
            None => retention_option(section_model(*g).options, key@) is None,
        },
{
    match get(g, chars_of(key).as_slice()) {
        Some(v) => match parse_i64(v.as_slice()) {
            Some(x) => if x >= 0 { Some(x) } else { None },
            None => None,
        },
        None => None,
    }
}

fn option_flag(g: &Section, key: &str) -> (r: Option<bool>)
    ensures
        match get_spec(section_model(*g).options, key@) {
            Some(v) => r == Some(v == "1"@),
            None => r is None,
        },
{
    match get(g, chars_of(key).as_slice()) {
        Some(v) => Some(chars_eq(v.as_slice(), chars_of("1").as_slice())),
        None => None,
    }
}

fn option_text(g: &Section, key: &str) -> (r: Option<String>)
    ensures
        match get_spec(section_model(*g).options, key@) {
            Some(v) => r matches Some(s) && s@ == v,
            None => r is None,
        },
{
    match get(g, chars_of(key).as_slice()) {
        Some(v) => Some(string_of(v.as_slice())),
        None => None,
    }
}

/// The index of the first `overwatch` section, or the number of sections when there is none.
fn find_overwatch_exec(sections: &Vec<Section>) -> (r: usize)
    ensures
        r <= sections@.len(),
        r < sections@.len() ==> find_overwatch(sections_model(sections@)) == Some(section_model(sections@[r as int])),
        r == sections@.len() ==> find_overwatch(sections_model(sections@)) is None,
{
    let ghost sm = sections_model(sections@);
    let mut idx: usize = 0;
    let target = chars_of("overwatch");
    assert(sm.subrange(0, sections@.len() as int) =~= sm);
    while idx < sections.len() && !chars_eq(sections[idx].kind.as_slice(), target.as_slice())
        invariant
            sm == sections_model(sections@),
            idx <= sections@.len(),
            target@ == "overwatch"@,
            find_overwatch(sm) == find_overwatch(sm.subrange(idx as int, sm.len() as int)),
        decreases sections@.len() - idx,
    {
        let ghost rest = sm.subrange(idx as int, sm.len() as int);
        assert(rest[0] == section_model(sections@[idx as int]));
        assert(rest.drop_first() =~= sm.subrange(idx + 1, sm.len() as int));
        idx = idx + 1;
    }
    if idx >= sections.len() {
        assert(sm.subrange(sm.len() as int, sm.len() as int) =~= Seq::<SectionModel>::empty());
    } else {
        assert(sm.subrange(idx as int, sm.len() as int)[0] == section_model(sections@[idx as int]));
    }
    idx
}

/// Whether the retention options of a UCI file, converted to seconds, fit in
/// `i64`, as `parse_uci` needs.
pub fn uci_retention_fits(text: &str) -> (r: bool)
    ensures
        r == retention_fits(text@),
{
    let sections = split_sections(text);
    let idx = find_overwatch_exec(&sections);
    if idx >= sections.len() {
        return true;
    }
    let g = &sections[idx];
    let a = match option_retention(g, "retention_hours_min") {
        Some(v) => v <= i64::MAX / 3600,
        None => true,
    };
    let b = match option_retention(g, "retention_days_hour") {
        Some(v) => v <= i64::MAX / 86400,
        None => true,
    };
    let c = match option_retention(g, "retention_days_day") {
        Some(v) => v <= i64::MAX / 86400,
        None => true,
    };
    a && b && c
}

/// Reads the daemon's settings from the text of a UCI configuration file:
/// the defaults, with each present and valid option of the first `overwatch`
/// section applied.
pub fn parse_uci(text: &str) -> (c: Config)
    requires
        retention_fits(text@),
    ensures
        config_model(c) == uci_model(text@),
{
    let mut cfg = default_config();
    let sections = split_sections(text);
    let idx = find_overwatch_exec(&sections);
    if idx >= sections.len() {
        return cfg;
    }
    let g = &sections[idx];
    if let Some(b) = option_flag(g, "enabled") {
        cfg.enabled = b;
    }
    if let Some(v) = option_u64(g, "sample_interval") {
        cfg.sample_interval = v;
    }
    if let Some(v) = option_retention(g, "retention_hours_min") {
        cfg.retention.min_secs = v * 3600;
    }
    if let Some(v) = option_retention(g, "retention_days_hour") {
        cfg.retention.hour_secs = v * 86400;
    }
    if let Some(v) = option_retention(g, "retention_days_day") {
        cfg.retention.day_secs = v * 86400;
    }
    let vals = get_all(g, chars_of("lan_prefix").as_slice());
    let ghost vv = vals@.map_values(|w: Vec<char>| w@);
    let mut prefixes: Vec<IpNet> = Vec::new();
    let mut k: usize = 0;
    while k < vals.len()
        invariant
            vv == vals@.map_values(|w: Vec<char>| w@),
            k <= vals@.len(),
            prefixes@ == prefixes_of(vv.subrange(0, k as int)),
        decreases vals@.len() - k,
    {
        assert(vv.subrange(0, k + 1).drop_last() =~= vv.subrange(0, k as int));
        assert(vv.subrange(0, k + 1).last() == vals@[k as int]@);
        if let Some(p) = parse_prefix(vals[k].as_slice()) {
            prefixes.push(p);
        }
        k = k + 1;
    }
    assert(vv.subrange(0, vals@.len() as int) =~= vv);
    if prefixes.len() > 0 {
        cfg.lan_prefixes = prefixes;
    }
    if let Some(v) = option_text(g, "db_path") {
        cfg.db_path = v;
    }
    if let Some(b) = option_flag(g, "dns_stats_enabled") {
        cfg.dns_stats_enabled = b;
    }
    if let Some(v) = option_text(g, "dns_iface") {
        cfg.dns_iface = v;
    }
    if let Some(v) = option_u64(g, "dns_flush_secs") {
        cfg.dns_flush_secs = v;
    }
    if let Some(v) = option_u64(g, "dns_top_n") {
        cfg.dns_top_n = v;
    }
    cfg
}

} // verus!
