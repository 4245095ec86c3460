//! Line-search patterns: the trusted boundary to the `regex` crate, the
//! verified construction of the search pattern from a query, and the
//! comma-separated extension filter.
#![allow(unused_imports)]
use vstd::prelude::*;
use vstd::string::*;

use crate::text::ascii_ieq;
use crate::{LineQuery, SearchMode};

verus! {

#[verifier::external_type_specification]
#[verifier::external_body]
pub struct ExBytesRegex(regex::bytes::Regex);

/// Whether `pattern` compiles as a regular expression under the given case
/// flag; the result of `regex::bytes::RegexBuilder::build`, a function of
/// its inputs alone.
pub uninterp spec fn regex_ok(pattern: Seq<char>, case_insensitive: bool) -> bool;

/// The leftmost match of the compiled `pattern` in `hay`, as byte offsets
/// `(start, end)` into `hay`; the result of `regex::bytes::Regex::find`, a
/// function of the pattern, the case flag and the haystack alone.
pub uninterp spec fn regex_find_spec(pattern: Seq<char>, case_insensitive: bool, hay: Seq<u8>) -> Option<
    (usize, usize),
>;

/// The escaped form of a string, in which every regex metacharacter stands
/// for itself; the result of `regex::escape`, a function of the characters
/// alone.
pub uninterp spec fn regex_escaped(s: Seq<char>) -> Seq<char>;

/// A compiled line pattern. The fields record exactly the inputs the
/// regular expression was compiled from; they are private, and
/// [`compile_pattern`] is the only constructor, so the contract of
/// [`find_in_line`] can speak of them.
#[derive(Debug)]
pub struct LinePattern {
    pattern: String,
    case_insensitive: bool,
    re: regex::bytes::Regex,
}

impl LinePattern {
    /// The pattern text the expression was compiled from.
    pub closed spec fn spec_pattern(&self) -> Seq<char> {
        self.pattern@
    }

    /// The case flag the expression was compiled with.
    pub closed spec fn spec_ci(&self) -> bool {
        self.case_insensitive
    }
}

/// Relies on `regex::escape`: the result depends on the characters alone.
/// Nothing is promised about compiling the escaped text: the builder runs
/// under a compiled-size limit, so a large enough escaped literal still
/// fails to compile, and such a failure surfaces as a query error.
#[verifier::external_body]
pub fn regex_escape(s: &str) -> (r: String)
    ensures
        r@ == regex_escaped(s@),
{
    regex::escape(s)
}

/// Relies on `regex::bytes::RegexBuilder` (`case_insensitive`, `build`):
/// compiles `pattern`, succeeding exactly when it is a valid regular
/// expression.
#[verifier::external_body]
pub fn compile_pattern(pattern: String, case_insensitive: bool) -> (r: Option<LinePattern>)
    ensures
        r is Some <==> regex_ok(pattern@, case_insensitive),
        r matches Some(p) ==> p.spec_pattern() == pattern@ && p.spec_ci() == case_insensitive,
{
    match regex::bytes::RegexBuilder::new(&pattern).case_insensitive(case_insensitive).build() {
        Ok(re) => Some(LinePattern { pattern, case_insensitive, re }),
        Err(_) => None,
    }
}

/// Relies on `regex::bytes::Regex::find`: the leftmost match, reported as
/// byte offsets within the haystack (so `start <= end <= hay.len()`). The
/// match depends on the pattern, the case flag and the haystack alone.
#[verifier::external_body]
pub fn find_in_line(p: &LinePattern, hay: &[u8]) -> (r: Option<(usize, usize)>)
    ensures
        r == regex_find_spec(p.spec_pattern(), p.spec_ci(), hay@),
        r matches Some(m) ==> m.0 <= m.1 <= hay@.len(),
{
    p.re.find(hay).map(|m| (m.start(), m.end()))
}

/// The pattern text a line query searches with: the query itself for a
/// regular-expression search, its escaped form for a plain-text search,
/// wrapped in word-boundary anchors when whole words are asked for.
pub open spec fn query_pattern(query: Seq<char>, mode: SearchMode, whole_word: bool) -> Seq<char> {
    let base = if mode == SearchMode::PlainText {
        regex_escaped(query)
    } else {
        query
    };
    if whole_word {
        "\\b"@ + base + "\\b"@
    } else {
        base
    }
}

/// Build the pattern text of a line query.
pub fn build_query_pattern(query: &LineQuery) -> (r: String)
    ensures
        r@ == query_pattern(query.query@, query.mode, query.whole_word),
{
    let base = match query.mode {
        SearchMode::PlainText => regex_escape(query.query.as_str()),
        SearchMode::Regex => query.query.clone(),
    };
    if query.whole_word {
        let mut s = String::from_str("\\b");
        s.append(base.as_str());
        s.append("\\b");
        proof {
            assert(s@ =~= "\\b"@ + base@ + "\\b"@);
        }
        s
    } else {
        base
    }
}

// ---------------------------------------------------------------------------
// The extension filter
// ---------------------------------------------------------------------------
/// An ASCII whitespace character, as the filter's trimming removes it.
pub open spec fn is_ws(c: char) -> bool {
    c == ' ' || c == '\t' || c == '\n' || c == '\r'
}

/// `s` without leading whitespace.
pub open spec fn ltrim(s: Seq<char>) -> Seq<char>
    decreases s.len(),
{
    if s.len() > 0 && is_ws(s[0]) {
        ltrim(s.drop_first())
    } else {
        s
    }
}

/// `s` without trailing whitespace.
pub open spec fn rtrim(s: Seq<char>) -> Seq<char>
    decreases s.len(),
{
    if s.len() > 0 && is_ws(s.last()) {
        rtrim(s.drop_last())
    } else {
        s
    }
}

/// `s` without leading and trailing whitespace.
pub open spec fn trim_spec(s: Seq<char>) -> Seq<char> {
    rtrim(ltrim(s))
}

proof fn lemma_ltrim_at(s: Seq<char>, a: int)
    requires
        0 <= a <= s.len(),
        forall|j: int| 0 <= j < a ==> is_ws(s[j]),
        a == s.len() || !is_ws(s[a]),
    ensures
        ltrim(s) =~= s.subrange(a, s.len() as int),
    decreases a,
{
    if a == 0 {
        if s.len() > 0 && is_ws(s[0]) {
            assert(false);
        }
        assert(ltrim(s) == s);
        assert(s =~= s.subrange(0, s.len() as int));
    } else {
        let t = s.drop_first();
        assert(t =~= s.subrange(1, s.len() as int));
        lemma_ltrim_at(t, a - 1);
        assert(t.subrange(a - 1, t.len() as int) =~= s.subrange(a, s.len() as int));
    }
}

proof fn lemma_rtrim_at(s: Seq<char>, b: int)
    requires
        0 <= b <= s.len(),
        forall|j: int| b <= j < s.len() ==> is_ws(s[j]),
        b == 0 || !is_ws(s[b - 1]),
    ensures
        rtrim(s) =~= s.subrange(0, b),
    decreases s.len(),
{
    if b == s.len() {
        if s.len() > 0 && is_ws(s.last()) {
            assert(false);
        }
        assert(s =~= s.subrange(0, s.len() as int));
    } else {
        let t = s.drop_last();
        assert(t =~= s.subrange(0, s.len() - 1));
        lemma_rtrim_at(t, b);
        assert(t.subrange(0, b) =~= s.subrange(0, b));
    }
}

/// Trim ASCII whitespace from both ends of `s`.
pub fn trim_exec(s: &str) -> (r: String)
    ensures
        r@ == trim_spec(s@),
{
    let len = s.unicode_len();
    let mut a: usize = 0;
    while a < len && is_ws_exec(s.get_char(a))
        invariant
            len == s@.len(),
            0 <= a <= len,
            forall|j: int| 0 <= j < a ==> is_ws(s@[j]),
        decreases len - a,
    {
        a += 1;
    }
    proof {
        lemma_ltrim_at(s@, a as int);
    }
    let mut b: usize = len;
    while b > a && is_ws_exec(s.get_char(b - 1))
        invariant
            len == s@.len(),
            a <= b <= len,
            forall|j: int| b <= j < len ==> is_ws(s@[j]),
        decreases b,
    {
        b -= 1;
    }
    let sub = s.substring_char(a, b);
    proof {
        let lt = s@.subrange(a as int, len as int);
        if b == a {
            lemma_rtrim_at(lt, 0);
        } else {
            lemma_rtrim_at(lt, b - a);
        }
        assert(lt.subrange(0, b - a) =~= s@.subrange(a as int, b as int));
    }
    sub.to_owned()
}

/// Decide [`is_ws`].
fn is_ws_exec(c: char) -> (r: bool)
    ensures
        r == is_ws(c),
{
    c == ' ' || c == '\t' || c == '\n' || c == '\r'
}

/// First position of `c` in `s` at or after `i`, or the length of `s`.
pub open spec fn find_char(s: Seq<char>, c: char, i: int) -> int
    decreases s.len() - i,
{
    if i < 0 {
        find_char(s, c, 0)
    } else if i >= s.len() {
        s.len() as int
    } else if s[i] == c {
        i
    } else {
        find_char(s, c, i + 1)
    }
}

proof fn lemma_find_char_bounds(s: Seq<char>, c: char, i: int)
    requires
        0 <= i <= s.len(),
    ensures
        i <= find_char(s, c, i) <= s.len(),
    decreases s.len() - i,
{
    if i < s.len() && s[i] != c {
        lemma_find_char_bounds(s, c, i + 1);
    }
}

/// First position of `c` in `s@` at or after `from`, or the length.
pub fn find_char_exec(s: &str, c: char, from: usize) -> (r: usize)
    requires
        from <= s@.len(),
    ensures
        r == find_char(s@, c, from as int),
        from <= r <= s@.len(),
{
    let len = s.unicode_len();
    let mut i = from;
    while i < len
        invariant
            len == s@.len(),
            from <= i <= len,
            find_char(s@, c, from as int) == find_char(s@, c, i as int),
        decreases len - i,
    {
        if s.get_char(i) == c {
            return i;
        }
        i += 1;
    }
    i
}

/// The extension filter a comma-separated list denotes: each segment
/// trimmed of ASCII whitespace, empty segments dropped.
pub open spec fn ext_list(s: Seq<char>) -> Seq<Seq<char>>
    decreases s.len(),
    via ext_list_decreases
{
    let c = find_char(s, ',', 0);
    if c == s.len() {
        if trim_spec(s).len() > 0 {
            seq![trim_spec(s)]
        } else {
            Seq::empty()
        }
    } else {
        let head = trim_spec(s.subrange(0, c));
        let rest = ext_list(s.subrange(c + 1, s.len() as int));
        if head.len() > 0 {
            seq![head] + rest
        } else {
            rest
        }
    }
}

#[via_fn]
proof fn ext_list_decreases(s: Seq<char>) {
    lemma_find_char_bounds(s, ',', 0);
}

/// Parse the extension filter of a query.
pub fn ext_list_exec(s: &str) -> (r: Vec<String>)
    ensures
        r.deep_view() == ext_list(s@),
    decreases s@.len(),
{
    let len = s.unicode_len();
    let c = find_char_exec(s, ',', 0);
    if c == len {
        let t = trim_exec(s);
        if t.as_str().unicode_len() > 0 {
            let mut out: Vec<String> = Vec::new();
            out.push(t);
            proof {
                assert(out.deep_view() =~= ext_list(s@));
            }
            out
        } else {
            let out: Vec<String> = Vec::new();
            proof {
                assert(out.deep_view() =~= ext_list(s@));
            }
            out
        }
    } else {
        let seg = s.substring_char(0, c);
        let rest = s.substring_char(c + 1, len);
        let mut tail = ext_list_exec(rest);
        let t = trim_exec(seg);
        if t.as_str().unicode_len() > 0 {
            tail.insert(0, t);
            proof {
                assert(tail.deep_view() =~= ext_list(s@));
            }
            tail
        } else {
            proof {
                assert(tail.deep_view() =~= ext_list(s@));
            }
            tail
        }
    }
}

/// Whether an extension passes the filter: the filter is empty, or some
/// listed extension equals it up to ASCII case.
pub open spec fn ext_passes(ext: Option<Seq<char>>, exts: Seq<Seq<char>>) -> bool {
    exts.len() == 0 || (ext matches Some(e) && exists|i: int|
        0 <= i < exts.len() && ascii_ieq(e, #[trigger] exts[i]))
}

/// The character view of an optional string.
pub open spec fn opt_str_view(o: Option<String>) -> Option<Seq<char>> {
    match o {
        Option::Some(s) => Option::Some(s@),
        Option::None => Option::None,
    }
}

/// Decide whether the extension of a file passes the parsed filter.
pub fn ext_passes_exec(ext: Option<String>, exts: &Vec<String>) -> (r: bool)
    ensures
        r == ext_passes(opt_str_view(ext), exts.deep_view()),
{
    if exts.len() == 0 {
        return true;
    }
    match ext {
        Option::None => false,
        Option::Some(e) => {
            let mut i: usize = 0;
            while i < exts.len()
                invariant
                    ext == Option::Some(e),
                    0 <= i <= exts@.len(),
                    forall|j: int| 0 <= j < i ==> !ascii_ieq(e@, #[trigger] exts.deep_view()[j]),
                decreases exts@.len() - i,
            {
                if crate::text::str_ascii_ieq(e.as_str(), exts[i].as_str()) {
                    proof {
                        assert(exts.deep_view()[i as int] == exts@[i as int]@);
                        assert(ascii_ieq(e@, exts.deep_view()[i as int]));
                        assert(ext == Option::Some(e));
                        assert(opt_str_view(ext) == Option::Some(e@));
                        assert(ext_passes(opt_str_view(ext), exts.deep_view()));
                    }
                    return true;
                }
                i += 1;
            }
            false
        },
    }
}

} // verus!
