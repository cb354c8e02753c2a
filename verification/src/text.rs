//! Character-level text utilities shared by the tokenizer, the parser and the
//! renderer: locating characters and substrings, counting newlines for error
//! reporting, trimming whitespace, and moving between `&str`, `Vec<char>` and
//! `String`.

use vstd::prelude::*;

use crate::is_space;
use crate::is_space_char;

verus! {

/// Index of the first occurrence of `c` in `s[lo..end)`, if any.
pub open spec fn find_char(s: Seq<char>, lo: int, end: int, c: char) -> Option<int>
    decreases end - lo,
{
    if lo >= end {
        None
    } else if s[lo] == c {
        Some(lo)
    } else {
        find_char(s, lo + 1, end, c)
    }
}

/// The pattern `p` occurs in `s` starting at position `i`.
pub open spec fn match_at(s: Seq<char>, p: Seq<char>, i: int) -> bool {
    s.subrange(i, i + p.len() as int) == p
}

/// Index of the first occurrence of the pattern `p` inside `s[lo..end)`, if any.
pub open spec fn find_sub(s: Seq<char>, lo: int, end: int, p: Seq<char>) -> Option<int>
    decreases end - lo,
{
    if lo >= end || lo + p.len() > end {
        None
    } else if match_at(s, p, lo) {
        Some(lo)
    } else {
        find_sub(s, lo + 1, end, p)
    }
}

/// How many newline characters `s[lo..end)` holds.
pub open spec fn count_newlines(s: Seq<char>, lo: int, end: int) -> nat
    decreases end - lo,
{
    if lo >= end {
        0
    } else {
        count_newlines(s, lo, end - 1) + (if s[end - 1] == '\n' {
            1nat
        } else {
            0nat
        })
    }
}

/// First position in `s[lo..end)` that does not hold whitespace (`end` if all
/// of the range is whitespace).
pub open spec fn skip_spaces(s: Seq<char>, lo: int, end: int) -> int
    decreases end - lo,
{
    if lo >= end || !is_space_char(s[lo]) {
        lo
    } else {
        skip_spaces(s, lo + 1, end)
    }
}

/// One past the last position in `s[lo..end)` that does not hold whitespace
/// (`lo` if all of the range is whitespace).
pub open spec fn rskip_spaces(s: Seq<char>, lo: int, end: int) -> int
    decreases end - lo,
{
    if end <= lo || !is_space_char(s[end - 1]) {
        end
    } else {
        rskip_spaces(s, lo, end - 1)
    }
}

/// `s[lo..end)` with leading and trailing whitespace removed.
pub open spec fn trimmed(s: Seq<char>, lo: int, end: int) -> Seq<char> {
    let a = skip_spaces(s, lo, end);
    let b = rskip_spaces(s, a, end);
    s.subrange(a, b)
}

/// `t` with leading and trailing whitespace removed.
pub open spec fn trim_seq(t: Seq<char>) -> Seq<char> {
    trimmed(t, 0, t.len() as int)
}

/// What [`find_char`] finds: the first occurrence, inside the range.
pub proof fn lemma_find_char(s: Seq<char>, lo: int, end: int, c: char)
    ensures
        match find_char(s, lo, end, c) {
            Some(i) => lo <= i < end && s[i] == c && forall|j: int| lo <= j < i ==> s[j] != c,
            None => forall|j: int| lo <= j < end ==> s[j] != c,
        },
    decreases end - lo,
{
    if lo < end && s[lo] != c {
        lemma_find_char(s, lo + 1, end, c);
    }
}

/// What [`find_sub`] finds: the first match, wholly inside the range.
pub proof fn lemma_find_sub(s: Seq<char>, lo: int, end: int, p: Seq<char>)
    ensures
        match find_sub(s, lo, end, p) {
            Some(i) => lo <= i && i + p.len() <= end && match_at(s, p, i),
            None => true,
        },
    decreases end - lo,
{
    if lo < end && lo + p.len() <= end && !match_at(s, p, lo) {
        lemma_find_sub(s, lo + 1, end, p);
    }
}

/// Skipping whitespace stays inside the range.
pub proof fn lemma_skip_spaces_bounds(s: Seq<char>, lo: int, end: int)
    requires
        lo <= end,
    ensures
        lo <= skip_spaces(s, lo, end) <= end,
    decreases end - lo,
{
    if lo < end && is_space_char(s[lo]) {
        lemma_skip_spaces_bounds(s, lo + 1, end);
    }
}

/// Skipping trailing whitespace stays inside the range.
pub proof fn lemma_rskip_spaces_bounds(s: Seq<char>, lo: int, end: int)
    requires
        lo <= end,
    ensures
        lo <= rskip_spaces(s, lo, end) <= end,
    decreases end - lo,
{
    if end > lo && is_space_char(s[end - 1]) {
        lemma_rskip_spaces_bounds(s, lo, end - 1);
    }
}

/// A position holding `c`, with no earlier occurrence in the range, is what
/// the search finds.
pub proof fn lemma_find_char_is(s: Seq<char>, lo: int, end: int, c: char, i: int)
    requires
        lo <= i < end,
        s[i] == c,
        forall|j: int| lo <= j < i ==> s[j] != c,
    ensures
        find_char(s, lo, end, c) == Some(i),
    decreases i - lo,
{
    if lo < i {
        lemma_find_char_is(s, lo + 1, end, c, i);
    }
}

/// A range without newlines counts zero of them.
pub proof fn lemma_count_newlines_zero(s: Seq<char>, lo: int, end: int)
    requires
        forall|j: int| lo <= j < end ==> (#[trigger] s[j]) != '\n',
    ensures
        count_newlines(s, lo, end) == 0,
    decreases end - lo,
{
    if lo < end {
        lemma_count_newlines_zero(s, lo, end - 1);
    }
}

/// A position where the pattern matches, with no earlier match in the range,
/// is what the search finds.
pub proof fn lemma_find_sub_is(s: Seq<char>, lo: int, end: int, p: Seq<char>, i: int)
    requires
        p.len() > 0,
        lo <= i,
        i + p.len() <= end,
        match_at(s, p, i),
        forall|q: int| lo <= q < i ==> !match_at(s, p, q),
    ensures
        find_sub(s, lo, end, p) == Some(i),
    decreases i - lo,
{
    if lo < i {
        lemma_find_sub_is(s, lo + 1, end, p, i);
    }
}

/// Searching inside `s[a..b)` finds the same occurrence as searching the cut
/// text itself, shifted by `a`.
pub proof fn lemma_find_char_in_subrange(s: Seq<char>, a: int, b: int, c: char, k: int)
    requires
        0 <= a <= k <= b <= s.len(),
    ensures
        find_char(s, k, b, c) == match find_char(s.subrange(a, b), k - a, b - a, c) {
            Some(i) => Some(i + a),
            None => None::<int>,
        },
    decreases b - k,
{
    if k < b {
        if s[k] != c {
            lemma_find_char_in_subrange(s, a, b, c, k + 1);
        }
    }
}

/// Skipping whitespace inside `s[a..b)` lands where skipping in the cut text
/// itself lands, shifted by `a`.
pub proof fn lemma_skip_spaces_in_subrange(s: Seq<char>, a: int, b: int, k: int)
    requires
        0 <= a <= k <= b <= s.len(),
    ensures
        skip_spaces(s, k, b) == skip_spaces(s.subrange(a, b), k - a, b - a) + a,
    decreases b - k,
{
    if k < b && is_space_char(s[k]) {
        lemma_skip_spaces_in_subrange(s, a, b, k + 1);
    }
}

/// The mirror of [`lemma_skip_spaces_in_subrange`] for trailing whitespace.
pub proof fn lemma_rskip_spaces_in_subrange(s: Seq<char>, a: int, b: int, lo: int, k: int)
    requires
        0 <= a <= lo <= k <= b <= s.len(),
    ensures
        rskip_spaces(s, lo, k) == rskip_spaces(s.subrange(a, b), lo - a, k - a) + a,
    decreases k - lo,
{
    if k > lo && is_space_char(s[k - 1]) {
        lemma_rskip_spaces_in_subrange(s, a, b, lo, k - 1);
    }
}

/// Trimming the text cut out of `s[a..b)` gives the same text as trimming the
/// range within `s`.
pub proof fn lemma_trim_subrange(s: Seq<char>, a: int, b: int)
    requires
        0 <= a <= b <= s.len(),
    ensures
        trim_seq(s.subrange(a, b)) == trimmed(s, a, b),
{
    let t = s.subrange(a, b);
    lemma_skip_spaces_bounds(s, a, b);
    lemma_skip_spaces_in_subrange(s, a, b, a);
    let p = skip_spaces(s, a, b);
    lemma_rskip_spaces_bounds(s, p, b);
    lemma_rskip_spaces_in_subrange(s, a, b, p, b);
    assert(t.subrange(p - a, rskip_spaces(s, p, b) - a) =~= s.subrange(p, rskip_spaces(s, p, b)));
}

/// The characters of `s` as a vector, for constant-time indexing.
pub fn to_char_vec(s: &str) -> (v: Vec<char>)
    ensures
        v@ == s@,
{
    let n = s.unicode_len();
    let mut v: Vec<char> = Vec::new();
    let mut i: usize = 0;
    while i < n
        invariant
            i <= n,
            n == s@.len(),
            v@ == s@.subrange(0, i as int),
        decreases n - i,
    {
        v.push(s.get_char(i));
        i = i + 1;
        proof {
            assert(v@ =~= s@.subrange(0, i as int));
        }
    }
    proof {
        assert(v@ =~= s@);
    }
    v
}

/// Whether two pieces of text hold the same characters.
pub fn str_eq(a: &str, b: &str) -> (r: bool)
    ensures
        r == (a@ == b@),
{
    let na = a.unicode_len();
    let nb = b.unicode_len();
    if na != nb {
        return false;
    }
    let mut i: usize = 0;
    while i < na
        invariant
            i <= na,
            na == a@.len(),
            na == b@.len(),
            forall|k: int| 0 <= k < i ==> a@[k] == b@[k],
        decreases na - i,
    {
        if a.get_char(i) != b.get_char(i) {
            return false;
        }
        i = i + 1;
    }
    proof {
        assert(a@ =~= b@);
    }
    true
}

/// Executable counterpart of [`find_char`].
pub fn find_char_in(v: &Vec<char>, lo: usize, end: usize, c: char) -> (r: Option<usize>)
    requires
        lo <= end <= v@.len(),
    ensures
        match r {
            Some(i) => lo <= i < end && find_char(v@, lo as int, end as int, c) == Some(i as int),
            None => find_char(v@, lo as int, end as int, c) is None,
        },
{
    let mut i: usize = lo;
    while i < end
        invariant
            lo <= i <= end <= v@.len(),
            find_char(v@, lo as int, end as int, c) == find_char(v@, i as int, end as int, c),
        decreases end - i,
    {
        if v[i] == c {
            return Some(i);
        }
        i = i + 1;
    }
    None
}

/// Executable counterpart of [`find_sub`].
pub fn find_sub_in(v: &Vec<char>, lo: usize, end: usize, p: &Vec<char>) -> (r: Option<usize>)
    requires
        lo <= end <= v@.len(),
        p@.len() > 0,
    ensures
        match r {
            Some(i) => lo <= i && i + p@.len() <= end && find_sub(v@, lo as int, end as int, p@)
                == Some(i as int),
            None => find_sub(v@, lo as int, end as int, p@) is None,
        },
{
    let plen = p.len();
    let mut i: usize = lo;
    while plen <= end - i
        invariant
            lo <= i <= end <= v@.len(),
            plen == p@.len(),
            plen > 0,
            find_sub(v@, lo as int, end as int, p@) == find_sub(v@, i as int, end as int, p@),
        decreases end - i,
    {
        let mut j: usize = 0;
        let mut is_match: bool = true;
        while j < plen
            invariant
                0 <= j <= plen,
                i + plen <= end <= v@.len(),
                plen == p@.len(),
                is_match ==> forall|k: int| 0 <= k < j ==> v@[i + k] == p@[k],
                !is_match ==> !match_at(v@, p@, i as int),
                !is_match ==> plen > 0,
            decreases plen - j,
        {
            if v[i + j] != p[j] {
                proof {
                    if match_at(v@, p@, i as int) {
                        assert(v@.subrange(i as int, i + p@.len() as int)[j as int] == p@[j as int]);
                    }
                }
                is_match = false;
                j = plen;
            } else {
                j = j + 1;
            }
        }
        if is_match {
            proof {
                assert(v@.subrange(i as int, i + p@.len() as int) =~= p@);
            }
            return Some(i);
        }
        proof {
            assert(find_sub(v@, i as int, end as int, p@) == find_sub(
                v@,
                i + 1int,
                end as int,
                p@,
            ));
        }
        i = i + 1;
    }
    None
}

/// Executable counterpart of [`count_newlines`].
pub fn count_newlines_in(v: &Vec<char>, lo: usize, end: usize) -> (r: usize)
    requires
        lo <= end <= v@.len(),
    ensures
        r == count_newlines(v@, lo as int, end as int),
{
    let mut i: usize = lo;
    let mut cnt: usize = 0;
    while i < end
        invariant
            lo <= i <= end <= v@.len(),
            cnt == count_newlines(v@, lo as int, i as int),
            cnt <= i - lo,
        decreases end - i,
    {
        if v[i] == '\n' {
            cnt = cnt + 1;
        }
        i = i + 1;
    }
    cnt
}

/// Executable counterpart of [`skip_spaces`].
pub fn skip_spaces_in(v: &Vec<char>, lo: usize, end: usize) -> (r: usize)
    requires
        lo <= end <= v@.len(),
    ensures
        lo <= r <= end,
        r == skip_spaces(v@, lo as int, end as int),
{
    let mut i: usize = lo;
    while i < end
        invariant
            lo <= i <= end <= v@.len(),
            skip_spaces(v@, lo as int, end as int) == skip_spaces(v@, i as int, end as int),
        decreases end - i,
    {
        if !is_space(v[i]) {
            return i;
        }
        i = i + 1;
    }
    i
}

/// Executable counterpart of [`rskip_spaces`].
pub fn rskip_spaces_in(v: &Vec<char>, lo: usize, end: usize) -> (r: usize)
    requires
        lo <= end <= v@.len(),
    ensures
        lo <= r <= end,
        r == rskip_spaces(v@, lo as int, end as int),
{
    let mut i: usize = end;
    while i > lo
        invariant
            lo <= i <= end <= v@.len(),
            rskip_spaces(v@, lo as int, end as int) == rskip_spaces(v@, lo as int, i as int),
        decreases i,
    {
        if !is_space(v[i - 1]) {
            return i;
        }
        i = i - 1;
    }
    i
}

} // verus!
