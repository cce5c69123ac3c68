use vstd::prelude::*;
use crate::flow::{parse_line_spec, Flow};
use crate::text::{chars_of, lines, lines_of};

verus! {

/// The flows of the lines that parse, in order.
pub open spec fn flows_of(ls: Seq<Seq<char>>) -> Seq<Flow>
    decreases ls.len(),
{
    if ls.len() == 0 {
        Seq::empty()
    } else {
        let rest = flows_of(ls.drop_last());
        match parse_line_spec(ls.last()) {
            Some(f) => rest.push(f),
            None => rest,
        }
    }
}

/// The flows of a conntrack table dump, one per line that describes an
/// accounted flow, in order.
pub fn parse_all(text: &str) -> (r: Vec<Flow>)
    ensures
        r@ == flows_of(lines(text@)),
{
    let cs = chars_of(text);
    let ls = lines_of(cs.as_slice());
    let ghost lv = ls@.map_values(|w: Vec<char>| w@);
    let mut out: Vec<Flow> = Vec::new();
    let mut i: usize = 0;
    while i < ls.len()
        invariant
            lv == ls@.map_values(|w: Vec<char>| w@),
            lv == lines(text@),
            i <= ls@.len(),
            out@ == flows_of(lv.subrange(0, i as int)),
        decreases ls@.len() - i,
    {
        assert(lv.subrange(0, i + 1).drop_last() =~= lv.subrange(0, i as int));
        assert(lv.subrange(0, i + 1).last() == ls@[i as int]@);
        if let Some(f) = Flow::parse_line_chars(ls[i].as_slice()) {
            out.push(f);
        }
        i = i + 1;
    }
    assert(lv.subrange(0, ls@.len() as int) =~= lv);
    out
}

/// std's I/O error, carried through as it is.
#[verifier::external_type_specification]
#[verifier::external_body]
pub struct ExIoError(std::io::Error);

/// A source of conntrack table dumps.
pub trait ConntrackSource {
    /// The current table dump as text.
    fn read(&self) -> std::io::Result<String>;
}

/// Where the kernel's conntrack table is read from.
pub struct ProcConntrack {
    pub path: String,
}

impl ProcConntrack {
    pub fn new() -> (r: Self)
        ensures
            r.path@ == "/proc/net/nf_conntrack"@,
    {
        ProcConntrack { path: "/proc/net/nf_conntrack".to_owned() }
    }
}

} // verus!
