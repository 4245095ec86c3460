//! Line structure of a byte buffer.
//!
//! A file is a sequence of bytes; its lines are the segments separated by
//! `\n` (byte 10). Line numbers are 1-based. A final segment without a
//! terminator still counts as a line; an empty buffer has no lines.
#![allow(unused_imports)]
use vstd::prelude::*;

verus! {

/// The newline byte.
pub open spec fn nl() -> u8 {
    10u8
}

/// Index of the first newline at or after `i`, or `data.len()` if there is
/// none.
pub open spec fn find_nl(data: Seq<u8>, i: int) -> int
    decreases data.len() - i,
{
    if i < 0 {
        find_nl(data, 0)
    } else if i >= data.len() {
        data.len() as int
    } else if data[i] == nl() {
        i
    } else {
        find_nl(data, i + 1)
    }
}

/// Byte offset of the start of 1-based line `k`: 0 for line 1, one past the
/// (k-1)-th newline otherwise. Saturates at `data.len()` when the line does
/// not exist.
pub open spec fn line_start(data: Seq<u8>, k: nat) -> int
    decreases k,
{
    if k <= 1 {
        0
    } else {
        let prev = line_start(data, (k - 1) as nat);
        let p = find_nl(data, prev);
        if p + 1 <= data.len() {
            p + 1
        } else {
            data.len() as int
        }
    }
}

/// Number of lines of `data` that start at or after offset `i`.
pub open spec fn line_count_from(data: Seq<u8>, i: int) -> nat
    decreases data.len() - i,
    via line_count_from_decreases
{
    if i < 0 || i >= data.len() {
        0
    } else {
        let nxt = find_nl(data, i) + 1;
        1 + line_count_from(
            data,
            if nxt > data.len() {
                data.len() as int
            } else {
                nxt
            },
        )
    }
}

#[via_fn]
proof fn line_count_from_decreases(data: Seq<u8>, i: int) {
    if 0 <= i < data.len() {
        lemma_find_nl_bounds(data, i);
    }
}

/// Number of lines of `data`: one per newline, plus one for a final
/// unterminated segment.
pub open spec fn line_count(data: Seq<u8>) -> nat {
    line_count_from(data, 0)
}

pub broadcast proof fn lemma_find_nl_bounds(data: Seq<u8>, i: int)
    requires
        0 <= i <= data.len(),
    ensures
        i <= #[trigger] find_nl(data, i) <= data.len(),
        find_nl(data, i) < data.len() ==> data[find_nl(data, i)] == nl(),
        forall|j: int| i <= j < find_nl(data, i) ==> data[j] != nl(),
    decreases data.len() - i,
{
    if i < data.len() && data[i] != nl() {
        lemma_find_nl_bounds(data, i + 1);
    }
}

pub broadcast proof fn lemma_line_start_bounds(data: Seq<u8>, k: nat)
    ensures
        0 <= #[trigger] line_start(data, k) <= data.len(),
    decreases k,
{
    if k > 1 {
        lemma_line_start_bounds(data, (k - 1) as nat);
        lemma_find_nl_bounds(data, line_start(data, (k - 1) as nat));
    }
}

/// Once a line start reaches the end of the buffer, all later line starts
/// stay there.
pub proof fn lemma_line_start_saturate(data: Seq<u8>, k: nat, m: nat)
    requires
        1 <= k <= m,
        line_start(data, k) == data.len(),
    ensures
        line_start(data, m) == data.len(),
    decreases m - k,
{
    if m > k {
        lemma_line_start_saturate(data, k, (m - 1) as nat);
        lemma_line_start_bounds(data, (m - 1) as nat);
    }
}

/// Line `k` (1-based) exists exactly when its start offset lies strictly
/// inside the buffer.
pub proof fn lemma_line_exists(data: Seq<u8>, k: nat)
    requires
        1 <= k,
    ensures
        line_start(data, k) < data.len() <==> k <= line_count(data),
{
    lemma_line_exists_from(data, 1, k);
}

proof fn lemma_line_exists_from(data: Seq<u8>, j: nat, k: nat)
    requires
        1 <= j <= k,
        line_start(data, j) <= data.len(),
    ensures
        line_start(data, k) < data.len() <==> (k - j) < line_count_from(
            data,
            line_start(data, j),
        ),
    decreases k - j,
{
    lemma_line_start_bounds(data, j);
    let s = line_start(data, j);
    if j == k {
        // line_count_from(data, s) > 0 <==> s < len
    } else {
        lemma_find_nl_bounds(data, s);
        if s == data.len() {
            lemma_line_start_saturate(data, j, k);
        } else {
            let nxt = line_start(data, j + 1);
            assert(nxt == if find_nl(data, s) + 1 <= data.len() {
                find_nl(data, s) + 1
            } else {
                data.len() as int
            });
            lemma_line_exists_from(data, j + 1, k);
            if find_nl(data, s) + 1 <= data.len() {
                assert(line_count_from(data, s) == 1 + line_count_from(data, nxt));
            } else {
                assert(find_nl(data, s) == data.len());
                assert(line_count_from(data, s) == 1 + line_count_from(data, data.len() as int));
                assert(line_count_from(data, nxt) == 0);
                assert(nxt == data.len());
                lemma_line_start_saturate(data, j + 1, k);
            }
        }
    }
}

/// The bytes of lines `start` through `end`, both 1-based and inclusive.
/// The terminators between the lines are kept; the terminator of line `end`
/// is not. An out-of-range `start` or an inverted range yields the empty
/// sequence; an `end` past the last line is clamped to it.
pub open spec fn extract_lines(data: Seq<u8>, start: nat, end: nat) -> Seq<u8> {
    let n = line_count(data);
    let e = if end > n {
        n
    } else {
        end
    };
    if start < 1 || start > e {
        Seq::empty()
    } else {
        data.subrange(line_start(data, start), find_nl(data, line_start(data, e)))
    }
}

/// First newline at or after `from`, or `data.len()`.
pub fn find_nl_exec(data: &[u8], from: usize) -> (r: usize)
    requires
        from <= data@.len(),
    ensures
        r == find_nl(data@, from as int),
{
    let mut i = from;
    while i < data.len()
        invariant
            from <= i <= data@.len(),
            find_nl(data@, from as int) == find_nl(data@, i as int),
        decreases data@.len() - i,
    {
        if data[i] == 10u8 {
            return i;
        }
        i += 1;
    }
    i
}

/// Byte offset of the start of line `k`, saturated at the end of the buffer.
pub fn line_start_exec(data: &[u8], k: usize) -> (r: usize)
    requires
        1 <= k,
    ensures
        r == line_start(data@, k as nat),
{
    let mut j: usize = 1;
    let mut off: usize = 0;
    proof {
        lemma_line_start_bounds(data@, 1);
    }
    while j < k && off < data.len()
        invariant
            1 <= j <= k,
            off == line_start(data@, j as nat),
            0 <= off <= data@.len(),
        decreases k - j,
    {
        let p = find_nl_exec(data, off);
        proof {
            lemma_find_nl_bounds(data@, off as int);
        }
        if p < data.len() {
            off = p + 1;
        } else {
            off = data.len();
        }
        j += 1;
        proof {
            lemma_line_start_bounds(data@, j as nat);
        }
    }
    proof {
        if j < k {
            lemma_line_start_saturate(data@, j as nat, k as nat);
        }
    }
    off
}

/// Extract lines `start..=end` of `data`, as [`extract_lines`] describes.
pub fn extract_line_range(data: &[u8], start: usize, end: usize) -> (r: Vec<u8>)
    requires
        1 <= start,
    ensures
        r@ == extract_lines(data@, start as nat, end as nat),
{
    let ghost n = line_count(data@);
    if end < start {
        proof {
            let e = if end > n {
                n
            } else {
                end as nat
            };
            assert(start as nat > e);
        }
        return Vec::new();
    }
    let start_off = line_start_exec(data, start);
    proof {
        lemma_line_start_bounds(data@, start as nat);
        lemma_line_exists(data@, start as nat);
    }
    let mut j = start;
    let mut cend = find_nl_exec(data, start_off);
    proof {
        lemma_find_nl_bounds(data@, start_off as int);
    }
    while j < end && cend < data.len() && cend + 1 < data.len()
        invariant
            n == line_count(data@),
            1 <= start,
            start <= j <= end,
            start_off == line_start(data@, start as nat),
            start_off <= data@.len(),
            0 <= line_start(data@, j as nat) <= data@.len(),
            cend == find_nl(data@, line_start(data@, j as nat)),
            cend <= data@.len(),
            start as nat <= n ==> j as nat <= n,
            line_start(data@, start as nat) < data@.len() || j == start,
        decreases end - j,
    {
        let cur = cend + 1;
        proof {
            lemma_find_nl_bounds(data@, line_start(data@, j as nat));
            assert(line_start(data@, (j + 1) as nat) == cur as int);
            lemma_line_exists(data@, (j + 1) as nat);
            lemma_line_start_bounds(data@, (j + 1) as nat);
            assert(find_nl(data@, data@.len() as int) == data@.len());
        }
        cend = find_nl_exec(data, cur);
        j += 1;
        proof {
            lemma_line_start_bounds(data@, j as nat);
            lemma_find_nl_bounds(data@, line_start(data@, j as nat));
        }
    }
    // At exit, `cend` is the content end of line min(end, n) whenever the
    // requested range is non-empty.
    proof {
        lemma_line_exists(data@, start as nat);
        let e = if end as nat > n {
            n
        } else {
            end as nat
        };
        if start as nat <= n {
            if j < end {
                // the walk stopped because line j is the last line
                lemma_last_line_end(data@, j as nat);
                assert(j as nat == n);
            } else {
                assert(j == end);
                assert(e == j as nat) by {
                    assert(j as nat <= n || e == n);
                }
            }
            assert(cend == find_nl(data@, line_start(data@, e)));
        } else {
            // no line `start`: both the spec and the walk produce nothing
            assert(line_start(data@, start as nat) == data@.len());
            assert(j == start);
            assert(find_nl(data@, data@.len() as int) == data@.len());
            assert(cend == data@.len());
        }
    }
    let mut out: Vec<u8> = Vec::new();
    let mut i = start_off;
    if start_off > cend {
        proof {
            let e = if end as nat > n {
                n
            } else {
                end as nat
            };
            if start as nat <= e {
                lemma_line_start_bounds(data@, e);
                lemma_find_nl_bounds(data@, line_start(data@, e));
                lemma_line_start_mono(data@, start as nat, e);
            }
        }
        return out;
    }
    while i < cend
        invariant
            start_off <= i <= cend <= data@.len(),
            out@ == data@.subrange(start_off as int, i as int),
        decreases cend - i,
    {
        out.push(data[i]);
        proof {
            assert(out@ =~= data@.subrange(start_off as int, i + 1));
        }
        i += 1;
    }
    proof {
        let e = if end as nat > n {
            n
        } else {
            end as nat
        };
        if start as nat >= 1 && start as nat <= e {
            lemma_line_start_mono(data@, start as nat, e);
            assert(out@ =~= extract_lines(data@, start as nat, end as nat));
        } else {
            assert(start_off == cend || out@.len() == 0);
            assert(out@ =~= Seq::<u8>::empty());
        }
    }
    out
}

/// The bytes of line `k` (1-based), without its terminator.
pub open spec fn line_content(data: Seq<u8>, k: nat) -> Seq<u8> {
    data.subrange(line_start(data, k), find_nl(data, line_start(data, k)))
}

/// Plain split of a byte sequence on the newline byte, as `split('\n')`
/// would give it: splitting the empty sequence yields one empty piece.
pub open spec fn split_nl(data: Seq<u8>) -> Seq<Seq<u8>>
    decreases data.len(),
    via split_nl_decreases
{
    let p = find_nl(data, 0);
    if p == data.len() {
        seq![data]
    } else {
        seq![data.subrange(0, p)] + split_nl(data.subrange(p + 1, data.len() as int))
    }
}

#[via_fn]
proof fn split_nl_decreases(data: Seq<u8>) {
    lemma_find_nl_bounds(data, 0);
}

/// Finding a newline inside a prefix-with-offset view of `data`: the search
/// in `data.subrange(a, b)` from relative position `i - a` lands at the same
/// newline as the search in `data` from `i`, clamped to the end of the part.
proof fn lemma_find_nl_subrange(data: Seq<u8>, a: int, b: int, i: int)
    requires
        0 <= a <= i <= b <= data.len(),
    ensures
        find_nl(data.subrange(a, b), i - a) == if find_nl(data, i) < b {
            find_nl(data, i) - a
        } else {
            b - a
        },
    decreases b - i,
{
    let e = data.subrange(a, b);
    lemma_find_nl_bounds(data, i);
    if i < b {
        if data[i] == nl() {
        } else {
            lemma_find_nl_subrange(data, a, b, i + 1);
        }
    }
}

/// Lines `k..=n` of `data`, where line `n` is the last, split on newline
/// into exactly the per-line contents.
proof fn lemma_split_extract(data: Seq<u8>, k: nat, n: nat)
    requires
        n == line_count(data),
        1 <= k <= n,
    ensures
        split_nl(extract_lines(data, k, n)) =~= Seq::new((n - k + 1) as nat, |i: int| line_content(data, (k + i) as nat)),
    decreases n - k,
{
    let e = extract_lines(data, k, n);
    let a = line_start(data, k);
    let b = find_nl(data, line_start(data, n));
    lemma_line_start_bounds(data, k);
    lemma_line_start_bounds(data, n);
    lemma_line_start_mono(data, k, n);
    lemma_find_nl_bounds(data, line_start(data, n));
    lemma_line_exists(data, k);
    lemma_line_exists(data, n);
    assert(e == data.subrange(a, b));
    lemma_find_nl_subrange(data, a, b, a);
    let p = find_nl(data, a);
    lemma_find_nl_bounds(data, a);
    if k == n {
        // a single line: no newline inside its content
        assert(find_nl(e, 0) == e.len());
        assert(split_nl(e) =~= seq![e]);
        assert(e =~= line_content(data, k));
    } else {
        // line k+1 exists, so line k is terminated inside the buffer
        lemma_line_exists(data, (k + 1) as nat);
        lemma_line_start_bounds(data, (k + 1) as nat);
        assert(line_start(data, (k + 1) as nat) < data.len());
        assert(p + 1 <= data.len());
        assert(line_start(data, (k + 1) as nat) == p + 1);
        lemma_line_start_mono(data, (k + 1) as nat, n);
        assert(p < b) by {
            if p >= b {
                assert(line_start(data, (k + 1) as nat) > b);
                lemma_find_nl_bounds(data, line_start(data, n));
            }
        }
        assert(find_nl(e, 0) == p - a);
        assert(e.subrange(0, p - a) =~= line_content(data, k));
        lemma_split_extract(data, (k + 1) as nat, n);
        assert(e.subrange(p - a + 1, e.len() as int) =~= extract_lines(data, (k + 1) as nat, n));
        let rest = Seq::new((n - k) as nat, |i: int| line_content(data, (k + 1 + i) as nat));
        assert(split_nl(e) =~= seq![line_content(data, k)] + rest);
    }
}

/// Range round-trip: for a buffer with `n` lines (`n >= 1`), extracting
/// lines `1..=n` and splitting the result on newline yields exactly the
/// `n` lines of the whole buffer.
pub proof fn lemma_full_range_round_trip(data: Seq<u8>)
    requires
        line_count(data) >= 1,
    ensures
        split_nl(extract_lines(data, 1, line_count(data))).len() == line_count(data),
        forall|i: int|
            0 <= i < line_count(data) ==> #[trigger] split_nl(
                extract_lines(data, 1, line_count(data)),
            )[i] == line_content(data, (i + 1) as nat),
{
    lemma_split_extract(data, 1, line_count(data));
}

/// A line that starts inside the buffer starts at or after offset `k - 1`:
/// every earlier line consumes at least one byte.
pub proof fn lemma_line_start_lower(data: Seq<u8>, k: nat)
    requires
        1 <= k,
        line_start(data, k) < data.len(),
    ensures
        line_start(data, k) >= k - 1,
    decreases k,
{
    if k > 1 {
        lemma_line_start_bounds(data, (k - 1) as nat);
        lemma_find_nl_bounds(data, line_start(data, (k - 1) as nat));
        lemma_line_start_mono(data, (k - 1) as nat, k);
        lemma_line_start_lower(data, (k - 1) as nat);
    }
}

/// Line starts are monotone in the line number.
pub proof fn lemma_line_start_mono(data: Seq<u8>, j: nat, k: nat)
    requires
        1 <= j <= k,
    ensures
        line_start(data, j) <= line_start(data, k),
        line_start(data, j) <= find_nl(data, line_start(data, k)),
    decreases k - j,
{
    lemma_line_start_bounds(data, j);
    lemma_line_start_bounds(data, k);
    lemma_find_nl_bounds(data, line_start(data, k));
    if j < k {
        lemma_line_start_mono(data, j, (k - 1) as nat);
        lemma_find_nl_bounds(data, line_start(data, (k - 1) as nat));
    }
}

/// If line `j` exists and its content runs to the end of the buffer, or it
/// ends with the final byte being its terminator, then `j` is the last line.
proof fn lemma_last_line_end(data: Seq<u8>, j: nat)
    requires
        1 <= j <= line_count(data),
        find_nl(data, line_start(data, j)) + 1 >= data.len(),
    ensures
        j == line_count(data),
{
    lemma_line_exists(data, j);
    lemma_line_exists(data, j + 1);
    lemma_line_start_bounds(data, j);
    lemma_find_nl_bounds(data, line_start(data, j));
    assert(line_start(data, (j + 1) as nat) >= data.len());
}

} // verus!
