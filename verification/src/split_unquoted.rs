//! Splitting text on whitespace while leaving quoted spans whole: the
//! tokenizer a tag's interior is run through, so that a space inside a quoted
//! attribute value does not break the attribute into two tokens.
//!
//! A `"` toggles the quoted/unquoted state and is kept in the emitted tokens.
//! Tokens are the maximal runs between whitespace positions seen while in the
//! unquoted state; whitespace inside a quoted span stays inside its token.
//! Malformed quoting (an odd number of `"`) is not an error here: the state
//! simply stays "in quotes" to the end of the input, and the fallout surfaces
//! later as an attribute-parsing error.

use vstd::prelude::*;

use crate::is_space;
use crate::is_space_char;
use vstd::string::StrSliceExecFns;

verus! {

/// Where the token that starts at `lo` (with quote state `q`) ends: the first
/// position at or after `lo` holding unquoted whitespace, or `end`.
pub open spec fn token_end(s: Seq<char>, lo: int, end: int, q: bool) -> int
    decreases end - lo,
{
    if lo >= end {
        lo
    } else if is_space_char(s[lo]) && !q {
        lo
    } else {
        token_end(s, lo + 1, end, if s[lo] == '"' {
            !q
        } else {
            q
        })
    }
}

/// A token's end lies inside the range it was sought in.
pub proof fn lemma_token_end_bounds(s: Seq<char>, lo: int, end: int, q: bool)
    requires
        lo <= end,
    ensures
        lo <= token_end(s, lo, end, q) <= end,
    decreases end - lo,
{
    if lo < end && !(is_space_char(s[lo]) && !q) {
        lemma_token_end_bounds(s, lo + 1, end, if s[lo] == '"' {
            !q
        } else {
            q
        });
    }
}

/// The tokens of `s[lo..end)`, in order.
pub open spec fn split_from(s: Seq<char>, lo: int, end: int) -> Seq<Seq<char>>
    decreases end - lo,
        via split_from_decreases
{
    if lo >= end {
        Seq::empty()
    } else if is_space_char(s[lo]) {
        split_from(s, lo + 1, end)
    } else {
        let te = token_end(s, lo, end, false);
        if te >= end {
            seq![s.subrange(lo, end)]
        } else {
            seq![s.subrange(lo, te)] + split_from(s, te + 1, end)
        }
    }
}

#[via_fn]
proof fn split_from_decreases(s: Seq<char>, lo: int, end: int) {
    if lo < end && !is_space_char(s[lo]) {
        lemma_token_end_bounds(s, lo, end, false);
    }
}

/// A range without whitespace and without quotes is one whole token.
pub proof fn lemma_token_end_plain(s: Seq<char>, lo: int, end: int)
    requires
        lo <= end,
        forall|j: int| lo <= j < end ==> !is_space_char(#[trigger] s[j]) && s[j] != '"',
    ensures
        token_end(s, lo, end, false) == end,
    decreases end - lo,
{
    if lo < end {
        lemma_token_end_plain(s, lo + 1, end);
    }
}

/// Splitting a nonempty range without whitespace and without quotes yields
/// that one range as the only token.
pub proof fn lemma_split_plain(s: Seq<char>, lo: int, end: int)
    requires
        lo < end,
        forall|j: int| lo <= j < end ==> !is_space_char(#[trigger] s[j]) && s[j] != '"',
    ensures
        split_from(s, lo, end) == seq![s.subrange(lo, end)],
{
    lemma_token_end_plain(s, lo, end);
}

/// Scanning past a whitespace-free, quote-free stretch does not end a token.
pub proof fn lemma_token_end_skip_plain(s: Seq<char>, lo: int, end: int, i: int)
    requires
        lo <= i <= end,
        forall|j: int| lo <= j < i ==> !is_space_char(#[trigger] s[j]) && s[j] != '"',
    ensures
        token_end(s, lo, end, false) == token_end(s, i, end, false),
    decreases i - lo,
{
    if lo < i {
        lemma_token_end_skip_plain(s, lo + 1, end, i);
    }
}

/// Inside a quoted span nothing ends a token: scanning continues to just
/// after the closing quote.
pub proof fn lemma_token_end_in_quotes(s: Seq<char>, x: int, end: int, j: int)
    requires
        x <= j < end,
        s[j] == '"',
        forall|y: int| x <= y < j ==> (#[trigger] s[y]) != '"',
    ensures
        token_end(s, x, end, true) == token_end(s, j + 1, end, false),
    decreases j - x,
{
    if x < j {
        lemma_token_end_in_quotes(s, x + 1, end, j);
    }
}

/// A whole quoted span, opening quote to closing quote, stays inside one
/// token.
pub proof fn lemma_token_end_quoted(s: Seq<char>, i: int, end: int, j: int)
    requires
        i < j < end,
        s[i] == '"',
        s[j] == '"',
        forall|y: int| i < y < j ==> (#[trigger] s[y]) != '"',
    ensures
        token_end(s, i, end, false) == token_end(s, j + 1, end, false),
{
    lemma_token_end_in_quotes(s, i + 1, end, j);
}

/// The tokens of the whole of `s`, in order.
pub open spec fn split_tokens(s: Seq<char>) -> Seq<Seq<char>> {
    split_from(s, 0, s.len() as int)
}

/// The texts that a list of `[start, end)` ranges cuts out of `s`.
pub open spec fn range_views(s: Seq<char>, rs: Seq<(usize, usize)>) -> Seq<Seq<char>> {
    rs.map_values(|r: (usize, usize)| s.subrange(r.0 as int, r.1 as int))
}

/// Executable counterpart of [`token_end`].
pub fn token_end_in(v: &Vec<char>, lo: usize, end: usize, q: bool) -> (r: usize)
    requires
        lo <= end <= v@.len(),
    ensures
        lo <= r <= end,
        r == token_end(v@, lo as int, end as int, q),
{
    let mut i: usize = lo;
    let mut inq: bool = q;
    while i < end
        invariant
            lo <= i <= end <= v@.len(),
            token_end(v@, lo as int, end as int, q) == token_end(v@, i as int, end as int, inq),
        decreases end - i,
    {
        if is_space(v[i]) && !inq {
            return i;
        }
        if v[i] == '"' {
            inq = !inq;
        }
        i = i + 1;
    }
    i
}

/// Executable counterpart of [`split_from`]: the tokens of `v[lo..end)` as
/// index ranges into `v`.
pub fn split_ranges(v: &Vec<char>, lo: usize, end: usize) -> (rs: Vec<(usize, usize)>)
    requires
        lo <= end <= v@.len(),
    ensures
        range_views(v@, rs@) == split_from(v@, lo as int, end as int),
        forall|k: int| 0 <= k < rs@.len() ==> lo <= #[trigger] rs@[k].0 < rs@[k].1 <= end,
{
    let mut rs: Vec<(usize, usize)> = Vec::new();
    let mut i: usize = lo;
    while i < end
        invariant
            lo <= i <= end <= v@.len(),
            split_from(v@, lo as int, end as int) == range_views(v@, rs@) + split_from(
                v@,
                i as int,
                end as int,
            ),
            forall|k: int| 0 <= k < rs@.len() ==> lo <= #[trigger] rs@[k].0 < rs@[k].1 <= end,
        decreases end - i,
    {
        if is_space(v[i]) {
            i = i + 1;
        } else {
            let te = token_end_in(v, i, end, false);
            proof {
                assert(te > i) by {
                    assert(token_end(v@, i as int, end as int, false) == token_end(
                        v@,
                        i + 1int,
                        end as int,
                        if v@[i as int] == '"' {
                            true
                        } else {
                            false
                        },
                    ));
                    lemma_token_end_bounds(
                        v@,
                        i + 1int,
                        end as int,
                        if v@[i as int] == '"' {
                            true
                        } else {
                            false
                        },
                    );
                }
            }
            let ghost old_rs = rs@;
            rs.push((i, te));
            proof {
                assert(range_views(v@, rs@) =~= range_views(v@, old_rs) + seq![
                    v@.subrange(i as int, te as int),
                ]);
            }
            if te >= end {
                proof {
                    assert(range_views(v@, rs@) + split_from(v@, end as int, end as int)
                        =~= range_views(v@, rs@));
                }
                i = end;
            } else {
                proof {
                    assert((range_views(v@, old_rs) + (seq![v@.subrange(i as int, te as int)]
                        + split_from(v@, te + 1int, end as int))) =~= (range_views(v@, rs@)
                        + split_from(v@, te + 1int, end as int)));
                }
                i = te + 1;
            }
        }
    }
    proof {
        assert(range_views(v@, rs@) + split_from(v@, end as int, end as int) =~= range_views(
            v@,
            rs@,
        ));
    }
    rs
}

/// The result of splitting a piece of text: the tokens, in order.
pub struct SplitUnquoted {
    tokens: Vec<String>,
}

impl View for SplitUnquoted {
    type V = Seq<Seq<char>>;

    closed spec fn view(&self) -> Seq<Seq<char>> {
        self.tokens.deep_view()
    }
}

impl SplitUnquoted {
    /// Splits `data` on whitespace outside quoted spans.
    ///
    /// A deliberate decision: a run of several delimiters splits only once,
    /// and the extra whitespace is dropped — no token ever begins with a
    /// delimiter. (An alternative reading would remove exactly one delimiter
    /// per split and leave the rest at the head of the next token, so that
    /// `a  k="v"` yields the token ` k="v"` and the key is then looked up,
    /// and missed, under the name ` k`. Here it yields `k="v"`.)
    pub fn split(data: &str) -> (r: SplitUnquoted)
        ensures
            r@ == split_tokens(data@),
    {
        let chars = crate::text::to_char_vec(data);
        let n = chars.len();
        let rs = split_ranges(&chars, 0, n);
        let mut tokens: Vec<String> = Vec::new();
        let mut k: usize = 0;
        while k < rs.len()
            invariant
                k <= rs@.len(),
                chars@ == data@,
                forall|j: int| 0 <= j < rs@.len() ==> 0 <= #[trigger] rs@[j].0 < rs@[j].1
                    <= data@.len(),
                tokens.deep_view() == range_views(data@, rs@.subrange(0, k as int)),
            decreases rs@.len() - k,
        {
            let ghost old_deep = tokens.deep_view();
            let (a, b) = rs[k];
            let tok = data.substring_char(a, b).to_owned();
            proof {
                assert(tok@ == data@.subrange(rs@[k as int].0 as int, rs@[k as int].1 as int));
            }
            tokens.push(tok);
            k = k + 1;
            proof {
                assert(tokens.deep_view() =~~= old_deep.push(data@.subrange(
                    rs@[k - 1int].0 as int,
                    rs@[k - 1int].1 as int,
                )));
                assert(rs@.subrange(0, k - 1int).push(rs@[k - 1int]) =~= rs@.subrange(0, k as int));
                assert(range_views(data@, rs@.subrange(0, k as int)) =~~= range_views(
                    data@,
                    rs@.subrange(0, k - 1int),
                ).push(data@.subrange(rs@[k - 1int].0 as int, rs@[k - 1int].1 as int)));
            }
        }
        proof {
            assert(rs@.subrange(0, rs@.len() as int) =~= rs@);
        }
        SplitUnquoted { tokens }
    }

    /// How many tokens the split produced.
    pub fn len(&self) -> (n: usize)
        ensures
            n == self@.len(),
    {
        self.tokens.len()
    }

    /// The token at position `i`.
    pub fn token(&self, i: usize) -> (t: &String)
        requires
            i < self@.len(),
        ensures
            t@ == self@[i as int],
    {
        &self.tokens[i]
    }
}

} // verus!
