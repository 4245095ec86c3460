//! Character-level text utilities: lexicographic order, substring search,
//! path-component helpers, and the two trusted text primitives (UTF-8
//! decoding and Unicode lowercasing).
#![allow(unused_imports)]
use vstd::prelude::*;
use vstd::string::*;
use vstd::utf8::{decode_utf8, valid_utf8};

verus! {

// ---------------------------------------------------------------------------
// Lexicographic order on character sequences
// ---------------------------------------------------------------------------
/// `a` is strictly before `b` from position `i` on, comparing code points.
pub open spec fn lex_lt_from(a: Seq<char>, b: Seq<char>, i: int) -> bool
    decreases b.len() - i,
{
    if i >= b.len() {
        false
    } else if i >= a.len() {
        true
    } else if a[i] != b[i] {
        (a[i] as u32) < (b[i] as u32)
    } else {
        lex_lt_from(a, b, i + 1)
    }
}

/// Strict lexicographic order by code point, the order of `BTreeSet<String>`.
pub open spec fn lex_lt(a: Seq<char>, b: Seq<char>) -> bool {
    lex_lt_from(a, b, 0)
}

proof fn lemma_lex_lt_from_connex(a: Seq<char>, b: Seq<char>, i: int)
    requires
        0 <= i <= a.len(),
        0 <= i <= b.len(),
        forall|j: int| 0 <= j < i ==> a[j] == b[j],
    ensures
        !lex_lt_from(a, b, i) && !lex_lt_from(b, a, i) ==> a == b,
    decreases a.len() - i,
{
    if i < a.len() && i < b.len() && a[i] == b[i] {
        lemma_lex_lt_from_connex(a, b, i + 1);
    } else if i == a.len() && i == b.len() {
        if !lex_lt_from(a, b, i) && !lex_lt_from(b, a, i) {
            assert(a =~= b);
        }
    } else if i < a.len() && i < b.len() {
        // a[i] != b[i]: the code points differ, so one order holds
        vstd::utf8::char_u32_cast(a[i], a[i] as u32);
        vstd::utf8::char_u32_cast(b[i], b[i] as u32);
    }
}

/// Two sequences with neither before the other are equal.
pub proof fn lemma_lex_connected(a: Seq<char>, b: Seq<char>)
    ensures
        !lex_lt(a, b) && !lex_lt(b, a) ==> a == b,
{
    lemma_lex_lt_from_connex(a, b, 0);
}

proof fn lemma_lex_lt_from_trans(a: Seq<char>, b: Seq<char>, c: Seq<char>, i: int)
    requires
        0 <= i,
        lex_lt_from(a, b, i),
        lex_lt_from(b, c, i),
    ensures
        lex_lt_from(a, c, i),
    decreases c.len() - i,
{
    if i < a.len() && i < b.len() && i < c.len() && a[i] == b[i] && b[i] == c[i] {
        lemma_lex_lt_from_trans(a, b, c, i + 1);
    }
}

/// Strict lexicographic order is transitive.
pub proof fn lemma_lex_trans(a: Seq<char>, b: Seq<char>, c: Seq<char>)
    requires
        lex_lt(a, b),
        lex_lt(b, c),
    ensures
        lex_lt(a, c),
{
    lemma_lex_lt_from_trans(a, b, c, 0);
}

/// Decide `lex_lt(a@, b@)`.
pub fn str_lt(a: &str, b: &str) -> (r: bool)
    ensures
        r == lex_lt(a@, b@),
{
    let alen = a.unicode_len();
    let blen = b.unicode_len();
    let mut i: usize = 0;
    while i < alen && i < blen
        invariant
            alen == a@.len(),
            blen == b@.len(),
            0 <= i <= alen,
            0 <= i <= blen,
            lex_lt(a@, b@) == lex_lt_from(a@, b@, i as int),
        decreases alen - i,
    {
        let ca = a.get_char(i);
        let cb = b.get_char(i);
        if ca != cb {
            return (ca as u32) < (cb as u32);
        }
        i += 1;
    }
    alen < blen
}

/// Decide `a@ == b@`.
pub fn str_eq(a: &str, b: &str) -> (r: bool)
    ensures
        r == (a@ == b@),
{
    let alen = a.unicode_len();
    let blen = b.unicode_len();
    if alen != blen {
        return false;
    }
    let mut i: usize = 0;
    while i < alen
        invariant
            alen == a@.len() == b@.len(),
            0 <= i <= alen,
            forall|j: int| 0 <= j < i ==> a@[j] == b@[j],
        decreases alen - i,
    {
        if a.get_char(i) != b.get_char(i) {
            return false;
        }
        i += 1;
    }
    proof {
        assert(a@ =~= b@);
    }
    true
}

// ---------------------------------------------------------------------------
// Substring and prefix search
// ---------------------------------------------------------------------------
/// `needle` occurs in `hay` at position `i`.
pub open spec fn match_at(hay: Seq<char>, needle: Seq<char>, i: int) -> bool {
    &&& 0 <= i
    &&& i + needle.len() <= hay.len()
    &&& forall|j: int| 0 <= j < needle.len() ==> hay[i + j] == needle[j]
}

/// `needle` occurs somewhere in `hay`.
pub open spec fn contains_seq(hay: Seq<char>, needle: Seq<char>) -> bool {
    exists|i: int| match_at(hay, needle, i)
}

/// Does `needle` occur in `hay` starting at position `i`?
fn match_here(hay: &str, needle: &str, i: usize) -> (r: bool)
    requires
        i + needle@.len() <= hay@.len(),
        hay@.len() <= usize::MAX,
    ensures
        r == match_at(hay@, needle@, i as int),
{
    let nlen = needle.unicode_len();
    let mut j: usize = 0;
    while j < nlen
        invariant
            nlen == needle@.len(),
            i + nlen <= hay@.len(),
            hay@.len() <= usize::MAX,
            0 <= j <= nlen,
            forall|q: int| 0 <= q < j ==> hay@[i + q] == needle@[q],
        decreases nlen - j,
    {
        if hay.get_char(i + j) != needle.get_char(j) {
            return false;
        }
        j += 1;
    }
    true
}

/// Decide `contains_seq(hay@, needle@)` by a naive scan.
pub fn str_contains(hay: &str, needle: &str) -> (r: bool)
    ensures
        r == contains_seq(hay@, needle@),
{
    let hlen = hay.unicode_len();
    let nlen = needle.unicode_len();
    if nlen > hlen {
        proof {
            assert(forall|i: int| !match_at(hay@, needle@, i));
        }
        return false;
    }
    if nlen == 0 {
        proof {
            assert(match_at(hay@, needle@, 0));
        }
        return true;
    }
    let mut i: usize = 0;
    while i <= hlen - nlen
        invariant
            hlen == hay@.len(),
            nlen == needle@.len(),
            1 <= nlen <= hlen,
            0 <= i <= hlen - nlen + 1,
            forall|p: int| 0 <= p < i ==> !match_at(hay@, needle@, p),
        decreases hlen - i,
    {
        if match_here(hay, needle, i) {
            return true;
        }
        i += 1;
    }
    proof {
        assert(forall|p: int| match_at(hay@, needle@, p) ==> 0 <= p <= hlen - nlen);
    }
    false
}

/// `pre` is a leading segment of `s`.
pub open spec fn is_prefix(s: Seq<char>, pre: Seq<char>) -> bool {
    pre.len() <= s.len() && forall|j: int| 0 <= j < pre.len() ==> s[j] == pre[j]
}

/// Decide `is_prefix(s@, pre@)`.
pub fn str_starts_with(s: &str, pre: &str) -> (r: bool)
    ensures
        r == is_prefix(s@, pre@),
{
    let slen = s.unicode_len();
    let plen = pre.unicode_len();
    if plen > slen {
        return false;
    }
    let mut i: usize = 0;
    while i < plen
        invariant
            slen == s@.len(),
            plen == pre@.len(),
            plen <= slen,
            0 <= i <= plen,
            forall|j: int| 0 <= j < i ==> s@[j] == pre@[j],
        decreases plen - i,
    {
        if s.get_char(i) != pre.get_char(i) {
            return false;
        }
        i += 1;
    }
    true
}

/// `pre` is a path-component prefix of `s`: empty, equal to `s`, or a
/// leading segment followed by a separator.
pub open spec fn path_starts_with(s: Seq<char>, pre: Seq<char>) -> bool {
    ||| pre.len() == 0
    ||| s == pre
    ||| (is_prefix(s, pre) && pre.len() < s.len() && s[pre.len() as int] == '/')
}

/// Decide `path_starts_with(s@, pre@)`.
pub fn path_prefix_matches(s: &str, pre: &str) -> (r: bool)
    ensures
        r == path_starts_with(s@, pre@),
{
    let plen = pre.unicode_len();
    if plen == 0 {
        return true;
    }
    if str_eq(s, pre) {
        return true;
    }
    if str_starts_with(s, pre) && plen < s.unicode_len() {
        return s.get_char(plen) == '/';
    }
    proof {
        if is_prefix(s@, pre@) && pre@.len() == s@.len() {
            assert(s@ =~= pre@);
        }
    }
    false
}

// ---------------------------------------------------------------------------
// Path components
// ---------------------------------------------------------------------------
/// Index of the last occurrence of `c` in `s`, or -1 if there is none.
pub open spec fn last_index_of(s: Seq<char>, c: char) -> int
    decreases s.len(),
{
    if s.len() == 0 {
        -1
    } else if s.last() == c {
        s.len() - 1
    } else {
        last_index_of(s.drop_last(), c)
    }
}

pub proof fn lemma_last_index_of(s: Seq<char>, c: char)
    ensures
        -1 <= last_index_of(s, c) < s.len(),
        last_index_of(s, c) >= 0 ==> s[last_index_of(s, c)] == c,
        forall|j: int| last_index_of(s, c) < j < s.len() ==> s[j] != c,
    decreases s.len(),
{
    if s.len() > 0 && s.last() != c {
        lemma_last_index_of(s.drop_last(), c);
        assert(forall|j: int| 0 <= j < s.len() - 1 ==> s.drop_last()[j] == s[j]);
    }
}

/// Index of the last occurrence of `c` in `s@`, or `None`.
pub fn find_last(s: &str, c: char) -> (r: Option<usize>)
    ensures
        r is None <==> last_index_of(s@, c) == -1,
        r matches Some(i) ==> i as int == last_index_of(s@, c),
{
    let len = s.unicode_len();
    let mut i = len;
    while i > 0
        invariant
            len == s@.len(),
            0 <= i <= len,
            forall|j: int| i <= j < len ==> s@[j] != c,
        decreases i,
    {
        i -= 1;
        if s.get_char(i) == c {
            proof {
                lemma_last_index_of_from(s@, c, i as int);
            }
            return Some(i);
        }
    }
    proof {
        lemma_no_occurrence(s@, c);
    }
    None
}

proof fn lemma_last_index_of_from(s: Seq<char>, c: char, i: int)
    requires
        0 <= i < s.len(),
        s[i] == c,
        forall|j: int| i < j < s.len() ==> s[j] != c,
    ensures
        last_index_of(s, c) == i,
    decreases s.len(),
{
    if s.len() - 1 > i {
        lemma_last_index_of_from(s.drop_last(), c, i);
        assert(forall|j: int| 0 <= j < s.len() - 1 ==> s.drop_last()[j] == s[j]);
    }
}

proof fn lemma_no_occurrence(s: Seq<char>, c: char)
    requires
        forall|j: int| 0 <= j < s.len() ==> s[j] != c,
    ensures
        last_index_of(s, c) == -1,
    decreases s.len(),
{
    if s.len() > 0 {
        lemma_no_occurrence(s.drop_last(), c);
    }
}

/// The leaf (final component) of a `/`-separated path.
pub open spec fn leaf_of(s: Seq<char>) -> Seq<char> {
    s.subrange(last_index_of(s, '/') + 1, s.len() as int)
}

/// The parent of a `/`-separated path: everything before the last
/// separator, or empty for a top-level name.
pub open spec fn parent_of(s: Seq<char>) -> Seq<char> {
    if last_index_of(s, '/') < 0 {
        Seq::empty()
    } else {
        s.subrange(0, last_index_of(s, '/'))
    }
}

/// The path a child named `leaf` has inside directory `parent`: the leaf
/// itself at the root, else the parent, a separator, and the leaf.
pub open spec fn join_path(parent: Seq<char>, leaf: Seq<char>) -> Seq<char> {
    if parent.len() == 0 {
        leaf
    } else {
        parent + "/"@ + leaf
    }
}

/// A path that does not begin with a separator is its parent joined with
/// its leaf.
pub proof fn lemma_join_parent_leaf(p: Seq<char>)
    requires
        p.len() == 0 || p[0] != '/',
    ensures
        join_path(parent_of(p), leaf_of(p)) == p,
{
    reveal_strlit("/");
    lemma_last_index_of(p, '/');
    let l = last_index_of(p, '/');
    if l < 0 {
        assert(leaf_of(p) =~= p);
    } else {
        assert("/"@.len() == 1);
        assert("/"@[0] == '/');
        assert(parent_of(p) + "/"@ + leaf_of(p) =~= p);
    }
}

/// The extension of a path: the part of the leaf after its last dot, absent
/// when the leaf has no dot or only a leading one.
pub open spec fn extension_of(s: Seq<char>) -> Option<Seq<char>> {
    let l = leaf_of(s);
    let d = last_index_of(l, '.');
    if d <= 0 {
        None
    } else {
        Some(l.subrange(d + 1, l.len() as int))
    }
}

/// The leaf of the path held in `s`.
pub fn leaf_str(s: &str) -> (r: String)
    ensures
        r@ == leaf_of(s@),
{
    proof {
        lemma_last_index_of(s@, '/');
    }
    let len = s.unicode_len();
    let from: usize = match find_last(s, '/') {
        None => 0,
        Some(p) => p + 1,
    };
    let sub = s.substring_char(from, len);
    sub.to_owned()
}

/// The parent of the path held in `s`.
pub fn parent_str(s: &str) -> (r: String)
    ensures
        r@ == parent_of(s@),
{
    proof {
        lemma_last_index_of(s@, '/');
    }
    match find_last(s, '/') {
        None => String::new(),
        Some(p) => {
            let sub = s.substring_char(0, p);
            sub.to_owned()
        },
    }
}

/// The extension of the path held in `s`, as [`extension_of`] gives it.
pub fn extension_str(s: &str) -> (r: Option<String>)
    ensures
        r is Some <==> extension_of(s@) is Some,
        r matches Some(e) ==> Some(e@) == extension_of(s@),
{
    let l = leaf_str(s);
    proof {
        lemma_last_index_of(l@, '.');
    }
    let llen = l.as_str().unicode_len();
    match find_last(l.as_str(), '.') {
        None => None,
        Some(d) => {
            if d == 0 {
                None
            } else {
                let sub = l.as_str().substring_char(d + 1, llen);
                Some(sub.to_owned())
            }
        },
    }
}

// ---------------------------------------------------------------------------
// ASCII case-insensitive comparison
// ---------------------------------------------------------------------------
/// The two characters are equal up to ASCII case.
pub open spec fn ascii_ieq_char(a: char, b: char) -> bool {
    ||| a == b
    ||| ('A' <= a <= 'Z' && b as u32 == a as u32 + 32)
    ||| ('A' <= b <= 'Z' && a as u32 == b as u32 + 32)
}

/// The two sequences are equal up to ASCII case.
pub open spec fn ascii_ieq(a: Seq<char>, b: Seq<char>) -> bool {
    a.len() == b.len() && forall|i: int| 0 <= i < a.len() ==> ascii_ieq_char(a[i], b[i])
}

/// Decide `ascii_ieq(a@, b@)`.
pub fn str_ascii_ieq(a: &str, b: &str) -> (r: bool)
    ensures
        r == ascii_ieq(a@, b@),
{
    let alen = a.unicode_len();
    let blen = b.unicode_len();
    if alen != blen {
        return false;
    }
    let mut i: usize = 0;
    while i < alen
        invariant
            alen == a@.len() == b@.len(),
            0 <= i <= alen,
            forall|j: int| 0 <= j < i ==> ascii_ieq_char(a@[j], b@[j]),
        decreases alen - i,
    {
        let ca = a.get_char(i);
        let cb = b.get_char(i);
        let eq = ca == cb || ('A' <= ca && ca <= 'Z' && cb as u32 == ca as u32 + 32) || ('A' <= cb
            && cb <= 'Z' && ca as u32 == cb as u32 + 32);
        if !eq {
            return false;
        }
        i += 1;
    }
    true
}

// ---------------------------------------------------------------------------
// Trusted text primitives
// ---------------------------------------------------------------------------
/// Relies on `std::str::from_utf8`: it returns `Ok` exactly when the bytes
/// are valid UTF-8, and the resulting string decodes those bytes.
#[verifier::external_body]
pub fn bytes_to_string(bytes: &[u8]) -> (r: Option<String>)
    ensures
        r is Some <==> valid_utf8(bytes@),
        r matches Some(s) ==> s@ == decode_utf8(bytes@),
{
    match std::str::from_utf8(bytes) {
        Ok(s) => Some(s.to_string()),
        Err(_) => None,
    }
}

/// Relies on `std::str::from_utf8` (through `is_ok`): it succeeds exactly
/// when the bytes are valid UTF-8.
#[verifier::external_body]
pub fn is_valid_utf8(bytes: &[u8]) -> (r: bool)
    ensures
        r == valid_utf8(bytes@),
{
    std::str::from_utf8(bytes).is_ok()
}

/// The Unicode lowercase form of a character sequence, the result of
/// `str::to_lowercase`; it depends on the characters alone.
pub uninterp spec fn lower_of(s: Seq<char>) -> Seq<char>;

/// Relies on `str::to_lowercase`: the result is a function of the
/// characters alone, and lowercasing the empty string yields the empty
/// string.
#[verifier::external_body]
pub fn lowercase(s: &str) -> (r: String)
    ensures
        r@ == lower_of(s@),
        s@.len() == 0 ==> r@.len() == 0,
{
    s.to_lowercase()
}

} // verus!
