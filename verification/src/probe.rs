use vstd::prelude::*;
use crate::text::{chars_eq, chars_of, lines, lines_of, trim, trim_of, words, words_of};

verus! {

/// What the daemon found out about the kernel at startup.
#[derive(Debug, Clone, Default, PartialEq)]
pub struct ProbeStatus {
    pub conntrack_acct: bool,
    pub btf: bool,
    pub clsact: bool,
    pub hw_stats_advancing: Option<bool>,
}

/// The first whitespace-separated word of a line, if any.
pub open spec fn first_word(l: Seq<char>) -> Option<Seq<char>> {
    if words(l).len() > 0 { Some(words(l)[0]) } else { None }
}

/// Whether some line of a `/proc/modules` listing names the module `name`.
pub open spec fn lists_module(text: Seq<char>, name: Seq<char>) -> bool {
    exists|i: int| 0 <= i < lines(text).len() && #[trigger] first_word(lines(text)[i]) == Some(name)
}

/// Whether the `nf_conntrack_acct` sysctl value is `1` (surrounding whitespace ignored).
pub fn parse_acct(sysctl_value: &str) -> (r: bool)
    ensures
        r == (trim(sysctl_value@) == seq!['1']),
{
    let cs = chars_of(sysctl_value);
    let t = trim_of(cs.as_slice());
    let one = vec!['1'];
    assert(one@ =~= seq!['1']);
    chars_eq(t.as_slice(), one.as_slice())
}

/// Whether the module `name` is loaded according to a `/proc/modules` listing.
pub fn modules_has(proc_modules: &str, name: &str) -> (r: bool)
    ensures
        r == lists_module(proc_modules@, name@),
{
    let cs = chars_of(proc_modules);
    let want = chars_of(name);
    let ls = lines_of(cs.as_slice());
    let ghost lv = ls@.map_values(|w: Vec<char>| w@);
    let mut i: usize = 0;
    while i < ls.len()
        invariant
            lv == lines(proc_modules@),
            lv == ls@.map_values(|w: Vec<char>| w@),
            lv.len() == ls@.len(),
            want@ == name@,
            i <= ls@.len(),
            forall|j: int| 0 <= j < i ==> #[trigger] first_word(lv[j]) != Some(name@),
        decreases ls@.len() - i,
    {
        let ws = words_of(ls[i].as_slice());
        assert(lv[i as int] == ls@[i as int]@);
        if ws.len() > 0 && chars_eq(ws[0].as_slice(), want.as_slice()) {
            assert(first_word(lv[i as int]) == Some(name@));
            return true;
        }
        i = i + 1;
    }
    false
}

/// Whether a hardware byte counter moved between two reads: `None` when it
/// went backwards (a reset), otherwise whether it grew.
pub fn hw_stats_advancing(prev_total: u64, cur_total: u64) -> (r: Option<bool>)
    ensures
        r == (if cur_total < prev_total { None } else { Some(cur_total > prev_total) }),
{
    if cur_total < prev_total {
        None
    } else {
        Some(cur_total > prev_total)
    }
}

/// Assembles the probe results from the raw sysctl text, whether BTF is
/// present, and the module listing; clsact support is recognised by either
/// `sch_ingress` or `ingress`.
pub fn gather(acct: &str, btf_present: bool, proc_modules: &str) -> (r: ProbeStatus)
    ensures
        r.conntrack_acct == (trim(acct@) == seq!['1']),
        r.btf == btf_present,
        r.clsact == (lists_module(proc_modules@, "sch_ingress"@) || lists_module(
            proc_modules@,
            "ingress"@,
        )),
        r.hw_stats_advancing == None::<bool>,
{
    let a = parse_acct(acct);
    let c = modules_has(proc_modules, "sch_ingress") || modules_has(proc_modules, "ingress");
    ProbeStatus { conntrack_acct: a, btf: btf_present, clsact: c, hw_stats_advancing: None }
}

} // verus!
