use vstd::prelude::*;

verus! {

broadcast use vstd::string::group_string_axioms;

/// Whether two strings hold the same characters.
///
/// Trusted: calls std's `==` on `str`, which compares the strings' contents.
#[verifier::external_body]
pub(crate) fn str_eq(a: &str, b: &str) -> (r: bool)
    ensures
        r == (a@ == b@),
{
    a == b
}

/// Appends a character to a string.
///
/// Trusted: calls std's `String::push`, which appends the character.
#[verifier::external_body]
pub(crate) fn push_char(s: &mut String, c: char)
    ensures
        final(s)@ == old(s)@.push(c),
{
    s.push(c)
}

/// Appends a string to a string.
///
/// Trusted: calls std's `String::push_str`, which appends the characters.
#[verifier::external_body]
pub(crate) fn push_str(s: &mut String, t: &str)
    ensures
        final(s)@ == old(s)@ + t@,
{
    s.push_str(t)
}

/// The text that the bytes encode, when they are valid UTF-8.
///
/// Trusted: calls std's `String::from_utf8`, which fails exactly when the
/// bytes are not valid UTF-8 and otherwise decodes them.
#[verifier::external_body]
pub(crate) fn utf8_string(bytes: Vec<u8>) -> (r: Option<String>)
    ensures
        r is Some <==> vstd::utf8::valid_utf8(bytes@),
        r matches Some(s) ==> s@ == vstd::utf8::decode_utf8(bytes@),
{
    String::from_utf8(bytes).ok()
}

/// What std's `str::to_lowercase` gives for a text.
pub uninterp spec fn lowercase(s: Seq<char>) -> Seq<char>;

/// The text in lowercase.
///
/// Trusted: calls std's `str::to_lowercase`; its result is a function of the
/// text alone, named `lowercase`, and the Unicode mapping is left unsaid.
#[verifier::external_body]
pub(crate) fn to_lower(s: &str) -> (r: String)
    ensures
        r@ == lowercase(s@),
{
    s.to_lowercase()
}

/// The characters of a string, in order.
pub fn chars_of(s: &str) -> (v: Vec<char>)
    ensures
        v@ == s@,
{
    let mut v: Vec<char> = Vec::new();
    for c in it: s.chars()
        invariant
            v@ == it.seq().subrange(0, it.index() as int),
    {
        v.push(c);
    }
    v
}

/// Builds a string from characters.
pub fn string_of(cs: &[char]) -> (r: String)
    ensures
        r@ == cs@,
{
    let mut r = String::new();
    let mut i: usize = 0;
    while i < cs.len()
        invariant
            i <= cs@.len(),
            r@ == cs@.subrange(0, i as int),
        decreases cs@.len() - i,
    {
        push_char(&mut r, cs[i]);
        assert(cs@.subrange(0, i + 1) =~= cs@.subrange(0, i as int).push(cs@[i as int]));
        i = i + 1;
    }
    assert(cs@.subrange(0, cs@.len() as int) =~= cs@);
    r
}

/// Unicode White_Space, the characters that `char::is_whitespace` accepts.
pub open spec fn is_ws(c: char) -> bool {
    ||| ('\u{9}' <= c && c <= '\u{d}')
    ||| c == ' '
    ||| c == '\u{85}'
    ||| c == '\u{a0}'
    ||| c == '\u{1680}'
    ||| ('\u{2000}' <= c && c <= '\u{200a}')
    ||| c == '\u{2028}'
    ||| c == '\u{2029}'
    ||| c == '\u{202f}'
    ||| c == '\u{205f}'
    ||| c == '\u{3000}'
}

/// Whether `c` is whitespace.
pub fn is_ws_exec(c: char) -> (r: bool)
    ensures
        r == is_ws(c),
{
    ('\u{9}' <= c && c <= '\u{d}') || c == ' ' || c == '\u{85}' || c == '\u{a0}' || c == '\u{1680}'
        || ('\u{2000}' <= c && c <= '\u{200a}') || c == '\u{2028}' || c == '\u{2029}' || c
        == '\u{202f}' || c == '\u{205f}' || c == '\u{3000}'
}

/// `s` without leading whitespace.
pub open spec fn trim_start(s: Seq<char>) -> Seq<char>
    decreases s.len(),
{
    if s.len() > 0 && is_ws(s[0]) { trim_start(s.drop_first()) } else { s }
}

/// `s` without trailing whitespace.
pub open spec fn trim_end(s: Seq<char>) -> Seq<char>
    decreases s.len(),
{
    if s.len() > 0 && is_ws(s.last()) { trim_end(s.drop_last()) } else { s }
}

/// `s` without leading and trailing whitespace, as `str::trim` gives it.
pub open spec fn trim(s: Seq<char>) -> Seq<char> {
    trim_end(trim_start(s))
}

/// The length of the longest prefix of `s` that holds no character `c`.
pub open spec fn run_until(s: Seq<char>, c: char) -> nat
    decreases s.len(),
{
    if s.len() == 0 || s[0] == c { 0 } else { 1 + run_until(s.drop_first(), c) }
}

/// The length of the longest prefix of `s` that holds no whitespace.
pub open spec fn run_until_ws(s: Seq<char>) -> nat
    decreases s.len(),
{
    if s.len() == 0 || is_ws(s[0]) { 0 } else { 1 + run_until_ws(s.drop_first()) }
}

/// A line without its terminating `"\r"` (used only for lines that ended in `"\n"`).
pub open spec fn strip_cr(l: Seq<char>) -> Seq<char> {
    if l.len() > 0 && l.last() == '\r' { l.drop_last() } else { l }
}

/// The lines of `s`, as `str::lines` gives them: split at `"\n"`, a `"\r"`
/// before the `"\n"` removed, no empty line after a final `"\n"`.
pub open spec fn lines(s: Seq<char>) -> Seq<Seq<char>>
    decreases s.len(),
{
    if s.len() == 0 {
        Seq::empty()
    } else {
        let k = run_until(s, '\n');
        proof {
            lemma_run_until_props(s, '\n');
        }
        if k == s.len() {
            seq![s]
        } else {
            seq![strip_cr(s.subrange(0, k as int))] + lines(s.subrange((k + 1) as int, s.len() as int))
        }
    }
}

/// The whitespace-separated words of `s`, as `str::split_whitespace` gives them.
pub open spec fn words(s: Seq<char>) -> Seq<Seq<char>>
    decreases s.len(),
{
    let t = trim_start(s);
    if t.len() == 0 {
        Seq::empty()
    } else {
        let k = run_until_ws(t);
        proof {
            lemma_trim_start_len(s);
            lemma_run_until_ws_props(t);
        }
        seq![t.subrange(0, k as int)] + words(t.subrange(k as int, t.len() as int))
    }
}

pub proof fn lemma_trim_start_len(s: Seq<char>)
    ensures
        trim_start(s).len() <= s.len(),
        trim_start(s) == s.subrange(s.len() - trim_start(s).len(), s.len() as int),
        trim_start(s).len() > 0 ==> !is_ws(trim_start(s)[0]),
    decreases s.len(),
{
    if s.len() > 0 && is_ws(s[0]) {
        lemma_trim_start_len(s.drop_first());
        assert(s.drop_first().subrange(
            s.drop_first().len() - trim_start(s).len(),
            s.drop_first().len() as int,
        ) =~= s.subrange(s.len() - trim_start(s).len(), s.len() as int));
    } else {
        assert(s.subrange(0, s.len() as int) =~= s);
    }
}

pub proof fn lemma_run_until_ws_props(s: Seq<char>)
    ensures
        run_until_ws(s) <= s.len(),
        forall|i: int| 0 <= i < run_until_ws(s) ==> !is_ws(#[trigger] s[i]),
        run_until_ws(s) < s.len() ==> is_ws(s[run_until_ws(s) as int]),
    decreases s.len(),
{
    if !(s.len() == 0 || is_ws(s[0])) {
        lemma_run_until_ws_props(s.drop_first());
        assert forall|i: int| 0 <= i < run_until_ws(s) implies !is_ws(#[trigger] s[i]) by {
            if i > 0 {
                assert(s[i] == s.drop_first()[i - 1]);
            }
        }
    }
}

pub proof fn lemma_run_until_props(s: Seq<char>, c: char)
    ensures
        run_until(s, c) <= s.len(),
        forall|i: int| 0 <= i < run_until(s, c) ==> #[trigger] s[i] != c,
        run_until(s, c) < s.len() ==> s[run_until(s, c) as int] == c,
    decreases s.len(),
{
    if !(s.len() == 0 || s[0] == c) {
        lemma_run_until_props(s.drop_first(), c);
        assert forall|i: int| 0 <= i < run_until(s, c) implies #[trigger] s[i] != c by {
            if i > 0 {
                assert(s[i] == s.drop_first()[i - 1]);
            }
        }
    }
}

/// The first position at or after `from` that is not whitespace (or the end).
pub fn skip_ws(cs: &[char], from: usize) -> (r: usize)
    requires
        from <= cs@.len(),
    ensures
        from <= r <= cs@.len(),
        cs@.subrange(r as int, cs@.len() as int) == trim_start(
            cs@.subrange(from as int, cs@.len() as int),
        ),
{
    let mut i = from;
    while i < cs.len() && is_ws_exec(cs[i])
        invariant
            from <= i <= cs@.len(),
            trim_start(cs@.subrange(i as int, cs@.len() as int)) == trim_start(
                cs@.subrange(from as int, cs@.len() as int),
            ),
        decreases cs@.len() - i,
    {
        assert(cs@.subrange(i as int, cs@.len() as int).drop_first() =~= cs@.subrange(
            i + 1,
            cs@.len() as int,
        ));
        i = i + 1;
    }
    i
}

/// The first position at or after `from` that is whitespace (or the end).
pub fn skip_word(cs: &[char], from: usize) -> (r: usize)
    requires
        from <= cs@.len(),
    ensures
        from <= r <= cs@.len(),
        r - from == run_until_ws(cs@.subrange(from as int, cs@.len() as int)),
{
    let mut i = from;
    while i < cs.len() && !is_ws_exec(cs[i])
        invariant
            from <= i <= cs@.len(),
            run_until_ws(cs@.subrange(from as int, cs@.len() as int)) == (i - from)
                + run_until_ws(cs@.subrange(i as int, cs@.len() as int)),
        decreases cs@.len() - i,
    {
        assert(cs@.subrange(i as int, cs@.len() as int).drop_first() =~= cs@.subrange(
            i + 1,
            cs@.len() as int,
        ));
        i = i + 1;
    }
    i
}

/// The whitespace-separated words of `cs`.
pub fn words_of(cs: &[char]) -> (r: Vec<Vec<char>>)
    ensures
        r@.map_values(|w: Vec<char>| w@) == words(cs@),
{
    let n = cs.len();
    let mut out: Vec<Vec<char>> = Vec::new();
    let mut i: usize = 0;
    assert(cs@.subrange(0, n as int) =~= cs@);
    assert(out@.map_values(|w: Vec<char>| w@) =~= Seq::<Seq<char>>::empty());
    while i < n
        invariant
            n == cs@.len(),
            i <= n,
            out@.map_values(|w: Vec<char>| w@) + words(cs@.subrange(i as int, n as int)) == words(
                cs@,
            ),
        decreases n - i,
    {
        let ghost rest = cs@.subrange(i as int, n as int);
        let start = skip_ws(cs, i);
        if start == n {
            assert(trim_start(rest).len() == 0);
            assert(words(rest) =~= Seq::<Seq<char>>::empty());
            assert(cs@.subrange(n as int, n as int) =~= Seq::<char>::empty());
            i = n;
        } else {
            let end = skip_word(cs, start);
            let ghost t = cs@.subrange(start as int, n as int);
            assert(t == trim_start(rest));
            let mut w: Vec<char> = Vec::new();
            let mut k = start;
            while k < end
                invariant
                    start <= k <= end <= n,
                    n == cs@.len(),
                    w@ == cs@.subrange(start as int, k as int),
                decreases end - k,
            {
                w.push(cs[k]);
                assert(cs@.subrange(start as int, k + 1) =~= cs@.subrange(start as int, k as int).push(
                    cs@[k as int],
                ));
                k = k + 1;
            }
            let ghost old_out = out@.map_values(|w: Vec<char>| w@);
            out.push(w);
            assert(t.subrange(0, (end - start) as int) =~= cs@.subrange(start as int, end as int));
            assert(t.subrange((end - start) as int, t.len() as int) =~= cs@.subrange(end as int, n as int));
            assert(out@.map_values(|w: Vec<char>| w@) =~= old_out.push(cs@.subrange(start as int, end as int)));
            assert(words(rest) == seq![cs@.subrange(start as int, end as int)] + words(
                cs@.subrange(end as int, n as int),
            ));
            assert(out@.map_values(|w: Vec<char>| w@) + words(cs@.subrange(end as int, n as int))
                =~= old_out + words(rest));
            i = end;
        }
    }
    assert(words(cs@.subrange(n as int, n as int)) =~= Seq::<Seq<char>>::empty()) by {
        assert(cs@.subrange(n as int, n as int) =~= Seq::<char>::empty());
    }
    assert(out@.map_values(|w: Vec<char>| w@) + Seq::<Seq<char>>::empty() =~= out@.map_values(
        |w: Vec<char>| w@,
    ));
    out
}

/// A copy of `cs[a..b]`.
pub fn copy_range(cs: &[char], a: usize, b: usize) -> (r: Vec<char>)
    requires
        a <= b <= cs@.len(),
    ensures
        r@ == cs@.subrange(a as int, b as int),
{
    let mut w: Vec<char> = Vec::new();
    let mut k = a;
    while k < b
        invariant
            a <= k <= b <= cs@.len(),
            w@ == cs@.subrange(a as int, k as int),
        decreases b - k,
    {
        w.push(cs[k]);
        assert(cs@.subrange(a as int, k + 1) =~= cs@.subrange(a as int, k as int).push(cs@[k as int]));
        k = k + 1;
    }
    w
}

/// The lines of `cs`.
pub fn lines_of(cs: &[char]) -> (r: Vec<Vec<char>>)
    ensures
        r@.map_values(|w: Vec<char>| w@) == lines(cs@),
{
    let n = cs.len();
    let mut out: Vec<Vec<char>> = Vec::new();
    let mut i: usize = 0;
    assert(cs@.subrange(0, n as int) =~= cs@);
    assert(out@.map_values(|w: Vec<char>| w@) =~= Seq::<Seq<char>>::empty());
    while i < n
        invariant
            n == cs@.len(),
            i <= n,
            out@.map_values(|w: Vec<char>| w@) + lines(cs@.subrange(i as int, n as int)) == lines(
                cs@,
            ),
        decreases n - i,
    {
        let ghost rest = cs@.subrange(i as int, n as int);
        let mut k = i;
        while k < n && cs[k] != '\n'
            invariant
                i <= k <= n,
                n == cs@.len(),
                rest == cs@.subrange(i as int, n as int),
                run_until(rest, '\n') == (k - i) + run_until(cs@.subrange(k as int, n as int), '\n'),
            decreases n - k,
        {
            assert(cs@.subrange(k as int, n as int).drop_first() =~= cs@.subrange(k + 1, n as int));
            k = k + 1;
        }
        let ghost old_out = out@.map_values(|w: Vec<char>| w@);
        if k == n {
            let line = copy_range(cs, i, n);
            out.push(line);
            assert(lines(rest) == seq![rest]);
            assert(cs@.subrange(n as int, n as int) =~= Seq::<char>::empty());
            assert(lines(cs@.subrange(n as int, n as int)) =~= Seq::<Seq<char>>::empty());
            assert(out@.map_values(|w: Vec<char>| w@) =~= old_out.push(rest));
            assert(out@.map_values(|w: Vec<char>| w@) + lines(cs@.subrange(n as int, n as int))
                =~= old_out + lines(rest));
            i = n;
        } else {
            let e = if k > i && cs[k - 1] == '\r' { k - 1 } else { k };
            let line = copy_range(cs, i, e);
            out.push(line);
            assert(rest.subrange(0, (k - i) as int) =~= cs@.subrange(i as int, k as int));
            assert(rest.subrange((k - i + 1) as int, rest.len() as int) =~= cs@.subrange(
                k + 1,
                n as int,
            ));
            assert(strip_cr(cs@.subrange(i as int, k as int)) =~= cs@.subrange(i as int, e as int));
            assert(out@.map_values(|w: Vec<char>| w@) =~= old_out.push(cs@.subrange(i as int, e as int)));
            assert(out@.map_values(|w: Vec<char>| w@) + lines(cs@.subrange(k + 1, n as int))
                =~= old_out + lines(rest));
            i = k + 1;
        }
    }
    assert(cs@.subrange(n as int, n as int) =~= Seq::<char>::empty());
    assert(lines(cs@.subrange(n as int, n as int)) =~= Seq::<Seq<char>>::empty());
    assert(out@.map_values(|w: Vec<char>| w@) + Seq::<Seq<char>>::empty() =~= out@.map_values(
        |w: Vec<char>| w@,
    ));
    out
}

/// `cs` without leading and trailing whitespace.
pub fn trim_of(cs: &[char]) -> (r: Vec<char>)
    ensures
        r@ == trim(cs@),
{
    let n = cs.len();
    let a = skip_ws(cs, 0);
    assert(cs@.subrange(0, n as int) =~= cs@);
    let mut b = n;
    while b > a && is_ws_exec(cs[b - 1])
        invariant
            a <= b <= n,
            n == cs@.len(),
            trim_end(cs@.subrange(a as int, b as int)) == trim_end(cs@.subrange(a as int, n as int)),
        decreases b,
    {
        assert(cs@.subrange(a as int, b as int).drop_last() =~= cs@.subrange(a as int, b - 1));
        b = b - 1;
    }
    copy_range(cs, a, b)
}

/// Whether two character sequences are equal.
pub fn chars_eq(a: &[char], b: &[char]) -> (r: bool)
    ensures
        r == (a@ == b@),
{
    if a.len() != b.len() {
        return false;
    }
    let mut i: usize = 0;
    while i < a.len()
        invariant
            a@.len() == b@.len(),
            i <= a@.len(),
            forall|j: int| 0 <= j < i ==> a@[j] == b@[j],
        decreases a@.len() - i,
    {
        if a[i] != b[i] {
            return false;
        }
        i = i + 1;
    }
    assert(a@ =~= b@);
    true
}

} // verus!
