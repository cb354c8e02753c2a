//! The recursive-descent engine: locates the next tag in a text buffer,
//! classifies it (declaration or comment, self-closing, or container), parses
//! its attributes, recursively parses the inner region into child nodes and
//! interleaved text, and returns the constructed node together with where the
//! unconsumed remainder begins.
//!
//! The whole grammar is first written down as spec functions ([`spec_parse`]
//! and its companions); every executable function here is proved to return
//! exactly what those functions say.

use vstd::prelude::*;

use crate::error::Error;
use crate::error::ParseError;
use crate::error::ParseErrorV;
use crate::node::assoc_upsert;
use crate::node::attrs_view;
use crate::node::group_add;
use crate::node::groups_view;
use crate::node::new_filled;
use crate::node::push_group;
use crate::node::upsert_attr;
use crate::node::Node;
use crate::node::NodeV;
use crate::split_unquoted::split_from;
use crate::split_unquoted::split_ranges;
use crate::text::count_newlines;
use crate::text::count_newlines_in;
use crate::text::find_char;
use crate::text::find_char_in;
use crate::text::find_sub;
use crate::text::find_sub_in;
use crate::text::lemma_find_char;
use crate::text::lemma_find_sub;
use crate::text::rskip_spaces_in;
use crate::text::skip_spaces_in;
use crate::text::to_char_vec;
use crate::text::trim_seq;
use crate::text::trimmed;
use vstd::string::StrSliceExecFns;

verus! {

/// What one engine step hands back: the stray text found before the tag
/// (`prolog`, trimmed — what the root validator inspects; `raw`, the same
/// text untrimmed — what joins a parent's content), the parsed node if the
/// step produced one, and the position in the buffer where the unconsumed
/// remainder begins. A step that found no tag consumes nothing: its `prolog`
/// reports the whole region trimmed, its `raw` is empty, and `rem` stays at
/// the region's start.
pub ghost struct PayloadV {
    pub prolog: Seq<char>,
    pub raw: Seq<char>,
    pub node: Option<NodeV>,
    pub rem: int,
}

/// The outcome of one engine step.
pub ghost enum ParseStepV {
    Fail { kind: ParseErrorV, line: nat },
    Done { payload: PayloadV },
}

/// The outcome of parsing an element's inner region.
pub ghost enum ChildrenV {
    CFail { kind: ParseErrorV, line: nat },
    CDone { content: Seq<char>, groups: Seq<(Seq<char>, Seq<NodeV>)> },
}

/// The outcome of reading a tag's attribute tokens.
pub ghost enum AttrsV {
    AOk { attrs: Seq<(Seq<char>, Seq<char>)> },
    AFail { kind: ParseErrorV },
}

/// Reads attribute tokens in order, accumulating onto `acc`. Each token must
/// hold a `=`; what follows the `=` must be wrapped in straight double quotes
/// (a trailing `/` straight after the closing quote is tolerated); the value
/// is what stands between the quotes. A later token with an already-seen key
/// overwrites that key's value.
pub open spec fn parse_attrs(toks: Seq<Seq<char>>, acc: Seq<(Seq<char>, Seq<char>)>) -> AttrsV
    decreases toks.len(),
{
    if toks.len() == 0 {
        AttrsV::AOk { attrs: acc }
    } else {
        let t = toks[0];
        match find_char(t, 0, t.len() as int, '=') {
            None => AttrsV::AFail { kind: ParseErrorV::MissingAttributeValue(t) },
            Some(e) => {
                let v = t.subrange(e, t.len() as int);
                if v.len() >= 3 && v[1] == '"' && (v[v.len() - 1] == '"' || (v[v.len() - 2] == '"'
                    && v[v.len() - 1] == '/')) {
                    parse_attrs(
                        toks.subrange(1, toks.len() as int),
                        assoc_upsert(acc, t.subrange(0, e), v.subrange(2, v.len() - 1)),
                    )
                } else {
                    AttrsV::AFail { kind: ParseErrorV::MissingQuotes(t) }
                }
            },
        }
    }
}

/// One step of the engine on `s[start..end)`.
///
/// - No `<` in the region: nothing is consumed (`rem == start`), no node;
///   the prolog reports the whole region trimmed.
/// - No `>` after the `<`: `MissingClosingDelimiter`, with the newline count
///   up to the `<`.
/// - The text between `<` and `>` (minus a trailing `/`) is tokenized by the
///   quote-aware splitter; the first token, trimmed, is the tag name and the
///   rest are attribute tokens. A tag name starting with `?` or `!` is a
///   declaration or comment: the whole tag is discarded and the step resumes
///   after the `>`.
/// - A trailing `/` makes a self-closing element: a node with no children and
///   empty content, the remainder starting after the `>`.
/// - Otherwise the first later occurrence of `</tag>` closes the element (its
///   absence is `MissingClosingTag`); the region in between is parsed by
///   [`spec_children`] into child groups and interleaved text, and the
///   remainder starts after the closing tag. The search is a plain substring
///   search, not a depth-balanced scan: when a child carries the same tag as
///   its ancestor, the child's closing tag is found first and cuts the
///   ancestor short. This is a known, deliberate limitation of the grammar;
///   lifting it would take a depth-counting scan here.
///
/// Error line numbers count the newlines from the start of the whole buffer
/// to the flaw, so a failure deep in the recursion needs no adjustment on the
/// way out.
pub open spec fn spec_parse(s: Seq<char>, start: int, end: int) -> ParseStepV
    decreases end - start, 0int,
        via spec_parse_decreases
{
    match find_char(s, start, end, '<') {
        None => ParseStepV::Done {
            payload: PayloadV {
                prolog: trimmed(s, start, end),
                raw: Seq::empty(),
                node: None,
                rem: start,
            },
        },
        Some(ol) => match find_char(s, ol + 1, end, '>') {
            None => ParseStepV::Fail {
                kind: ParseErrorV::MissingClosingDelimiter,
                line: count_newlines(s, 0, ol),
            },
            Some(cl) => {
                let attr_end = if s[cl - 1] == '/' {
                    cl - 1
                } else {
                    cl
                };
                let toks = split_from(s, ol + 1, attr_end);
                let tag = if toks.len() == 0 {
                    Seq::<char>::empty()
                } else {
                    trim_seq(toks[0])
                };
                if tag.len() > 0 && (tag[0] == '?' || tag[0] == '!') {
                    spec_parse(s, cl + 1, end)
                } else {
                    let rest = if toks.len() == 0 {
                        toks
                    } else {
                        toks.subrange(1, toks.len() as int)
                    };
                    match parse_attrs(rest, Seq::empty()) {
                        AttrsV::AFail { kind } => ParseStepV::Fail {
                            kind,
                            line: count_newlines(s, 0, cl),
                        },
                        AttrsV::AOk { attrs } => {
                            if attr_end < cl {
                                ParseStepV::Done {
                                    payload: PayloadV {
                                        prolog: trimmed(s, start, ol),
                                        raw: s.subrange(start, ol),
                                        node: Some(
                                            NodeV {
                                                tag,
                                                attrs,
                                                groups: Seq::empty(),
                                                content: Seq::empty(),
                                            },
                                        ),
                                        rem: cl + 1,
                                    },
                                }
                            } else {
                                let pat = seq!['<', '/'] + tag + seq!['>'];
                                match find_sub(s, cl + 1, end, pat) {
                                    None => ParseStepV::Fail {
                                        kind: ParseErrorV::MissingClosingTag(tag),
                                        line: count_newlines(s, 0, cl),
                                    },
                                    Some(ct) => match spec_children(
                                        s,
                                        cl + 1,
                                        ct,
                                        Seq::empty(),
                                        Seq::empty(),
                                    ) {
                                        ChildrenV::CFail { kind, line } => ParseStepV::Fail {
                                            kind,
                                            line,
                                        },
                                        ChildrenV::CDone { content, groups } => ParseStepV::Done {
                                            payload: PayloadV {
                                                prolog: trimmed(s, start, ol),
                                                raw: s.subrange(start, ol),
                                                node: Some(
                                                    NodeV {
                                                        tag,
                                                        attrs,
                                                        groups,
                                                        content: trim_seq(content),
                                                    },
                                                ),
                                                rem: ct + pat.len(),
                                            },
                                        },
                                    },
                                }
                            }
                        },
                    }
                }
            },
        },
    }
}

/// Parses an element's inner region `s[cur..hi)` step by step. A step that
/// produces a node appends it to the group keyed by its tag; the raw text
/// the step passed over joins the accumulated content unchanged, fragment
/// after fragment with no added separators (trimming happens once, when the
/// parent node is constructed). A step that consumes nothing ends the walk,
/// and the text it left joins the content verbatim.
pub open spec fn spec_children(
    s: Seq<char>,
    cur: int,
    hi: int,
    c_acc: Seq<char>,
    g_acc: Seq<(Seq<char>, Seq<NodeV>)>,
) -> ChildrenV
    decreases hi - cur, 1int,
{
    if cur >= hi {
        ChildrenV::CDone { content: c_acc, groups: g_acc }
    } else {
        match spec_parse(s, cur, hi) {
            ParseStepV::Fail { kind, line } => ChildrenV::CFail { kind, line },
            ParseStepV::Done { payload } => {
                let g2 = match payload.node {
                    Some(n) => group_add(g_acc, n.tag, n),
                    None => g_acc,
                };
                if payload.rem <= cur || payload.rem > hi {
                    ChildrenV::CDone { content: c_acc + s.subrange(cur, hi), groups: g2 }
                } else {
                    spec_children(s, payload.rem, hi, c_acc + payload.raw, g2)
                }
            },
        }
    }
}

#[via_fn]
proof fn spec_parse_decreases(s: Seq<char>, start: int, end: int) {
    lemma_find_char(s, start, end, '<');
    match find_char(s, start, end, '<') {
        None => {},
        Some(ol) => {
            lemma_find_char(s, ol + 1, end, '>');
            match find_char(s, ol + 1, end, '>') {
                None => {},
                Some(cl) => {
                    let attr_end = if s[cl - 1] == '/' {
                        cl - 1
                    } else {
                        cl
                    };
                    let toks = split_from(s, ol + 1, attr_end);
                    let tag = if toks.len() == 0 {
                        Seq::<char>::empty()
                    } else {
                        trim_seq(toks[0])
                    };
                    let pat = seq!['<', '/'] + tag + seq!['>'];
                    lemma_find_sub(s, cl + 1, end, pat);
                },
            }
        },
    }
}

/// Reading attribute tokens keeps the accumulated keys unique: a duplicated
/// key in a tag overwrites, it does not pile up.
pub proof fn lemma_parse_attrs_unique(toks: Seq<Seq<char>>, acc: Seq<(Seq<char>, Seq<char>)>)
    requires
        crate::node::unique_keys(acc),
    ensures
        match parse_attrs(toks, acc) {
            AttrsV::AOk { attrs } => crate::node::unique_keys(attrs),
            AttrsV::AFail { .. } => true,
        },
    decreases toks.len(),
{
    if toks.len() > 0 {
        let t = toks[0];
        match find_char(t, 0, t.len() as int, '=') {
            None => {},
            Some(e) => {
                let v = t.subrange(e, t.len() as int);
                if v.len() >= 3 && v[1] == '"' && (v[v.len() - 1] == '"' || (v[v.len() - 2] == '"'
                    && v[v.len() - 1] == '/')) {
                    let acc2 = assoc_upsert(acc, t.subrange(0, e), v.subrange(2, v.len() - 1));
                    crate::node::lemma_assoc_upsert_unique(
                        acc,
                        t.subrange(0, e),
                        v.subrange(2, v.len() - 1),
                    );
                    lemma_parse_attrs_unique(toks.subrange(1, toks.len() as int), acc2);
                }
            },
        }
    }
}

/// Law: every node the engine constructs satisfies the tree invariant: each
/// child stands in the group keyed by its own tag and keys never repeat,
/// throughout the tree.
pub proof fn lemma_spec_parse_wf(s: Seq<char>, start: int, end: int)
    ensures
        match spec_parse(s, start, end) {
            ParseStepV::Done { payload } => match payload.node {
                Some(n) => crate::node::wf_node(n),
                None => true,
            },
            _ => true,
        },
    decreases end - start, 0int,
{
    lemma_find_char(s, start, end, '<');
    match find_char(s, start, end, '<') {
        None => {},
        Some(ol) => {
            lemma_find_char(s, ol + 1, end, '>');
            match find_char(s, ol + 1, end, '>') {
                None => {},
                Some(cl) => {
                    let attr_end = if s[cl - 1] == '/' {
                        cl - 1
                    } else {
                        cl
                    };
                    let toks = split_from(s, ol + 1, attr_end);
                    let tag = if toks.len() == 0 {
                        Seq::<char>::empty()
                    } else {
                        trim_seq(toks[0])
                    };
                    if tag.len() > 0 && (tag[0] == '?' || tag[0] == '!') {
                        lemma_spec_parse_wf(s, cl + 1, end);
                    } else {
                        let rest = if toks.len() == 0 {
                            toks
                        } else {
                            toks.subrange(1, toks.len() as int)
                        };
                        lemma_parse_attrs_unique(rest, Seq::empty());
                        let pat = seq!['<', '/'] + tag + seq!['>'];
                        lemma_find_sub(s, cl + 1, end, pat);
                        match find_sub(s, cl + 1, end, pat) {
                            None => {},
                            Some(ct) => {
                                lemma_spec_children_wf(s, cl + 1, ct, Seq::empty(), Seq::empty());
                            },
                        }
                    }
                },
            }
        },
    }
}

/// Law: walking an element's inner region keeps the accumulated child groups
/// well-formed, their keys unique.
pub proof fn lemma_spec_children_wf(
    s: Seq<char>,
    cur: int,
    hi: int,
    c_acc: Seq<char>,
    g_acc: Seq<(Seq<char>, Seq<NodeV>)>,
)
    requires
        crate::node::wf_groups(g_acc),
        crate::node::unique_keys(g_acc),
    ensures
        match spec_children(s, cur, hi, c_acc, g_acc) {
            ChildrenV::CDone { content, groups } => crate::node::wf_groups(groups)
                && crate::node::unique_keys(groups),
            _ => true,
        },
    decreases hi - cur, 1int,
{
    if cur < hi {
        lemma_spec_parse_wf(s, cur, hi);
        match spec_parse(s, cur, hi) {
            ParseStepV::Fail { .. } => {},
            ParseStepV::Done { payload } => {
                let g2 = match payload.node {
                    Some(n) => group_add(g_acc, n.tag, n),
                    None => g_acc,
                };
                match payload.node {
                    Some(n) => {
                        crate::node::lemma_group_add_wf(g_acc, n);
                        crate::node::lemma_group_add_unique(g_acc, n.tag, n);
                    },
                    None => {},
                }
                if payload.rem <= cur || payload.rem > hi {
                } else {
                    lemma_spec_children_wf(s, payload.rem, hi, c_acc + payload.raw, g2);
                }
            },
        }
    }
}

/// A tag name that carries none of the characters the grammar gives a
/// meaning to: no delimiters, no slash, no quote, no whitespace, and not the
/// leading `?` or `!` of a declaration.
pub open spec fn plain_tag(t: Seq<char>) -> bool {
    &&& t.len() > 0
    &&& t[0] != '?'
    &&& t[0] != '!'
    &&& forall|i: int|
        0 <= i < t.len() ==> (#[trigger] t[i]) != '<' && t[i] != '>' && t[i] != '/' && t[i] != '"'
            && !crate::is_space_char(t[i])
}

/// The empty element with the given tag.
pub open spec fn empty_element(t: Seq<char>) -> NodeV {
    NodeV { tag: t, attrs: Seq::empty(), groups: Seq::empty(), content: Seq::empty() }
}

/// Law: self-closing idempotence. For every plain tag `t`, the documents
/// `<t/>` and `<t></t>` both parse to the empty element tagged `t` — no
/// attributes, no children, empty content — and that element renders back to
/// `<t/>`.
pub proof fn lemma_self_closing_idempotence(t: Seq<char>)
    requires
        plain_tag(t),
    ensures
        spec_document(seq!['<'] + t + seq!['/', '>']) == (DocV::DocOk { node: empty_element(t) }),
        spec_document(seq!['<'] + t + seq!['>'] + seq!['<', '/'] + t + seq!['>']) == (DocV::DocOk {
            node: empty_element(t),
        }),
        crate::node::render_node(empty_element(t)) == seq!['<'] + t + seq!['/', '>'],
{
    lemma_parse_self_closing_form(t);
    lemma_parse_container_form(t);
    assert(crate::node::render_node(empty_element(t)) =~= seq!['<'] + t + seq!['/', '>']);
}

/// For every plain tag `t`, `<t/>` parses to the empty element tagged `t`.
proof fn lemma_parse_self_closing_form(t: Seq<char>)
    requires
        plain_tag(t),
    ensures
        spec_document(seq!['<'] + t + seq!['/', '>']) == (DocV::DocOk { node: empty_element(t) }),
{
    let s = seq!['<'] + t + seq!['/', '>'];
    let n = t.len() as int;
    assert(s.len() == n + 3);
    assert(s[0] == '<');
    assert(s[n + 1] == '/');
    assert(s[n + 2] == '>');
    crate::text::lemma_find_char_is(s, 0, n + 3, '<', 0);
    assert forall|j: int| 1 <= j < n + 2 implies s[j] != '>' by {
        if j <= n {
            assert(s[j] == t[j - 1]);
        }
    }
    crate::text::lemma_find_char_is(s, 1, n + 3, '>', n + 2);
    assert forall|j: int| 1 <= j < n + 1 implies !crate::is_space_char(#[trigger] s[j]) && s[j]
        != '"' by {
        assert(s[j] == t[j - 1]);
    }
    crate::split_unquoted::lemma_split_plain(s, 1, n + 1);
    assert(s.subrange(1, n + 1) =~= t);
    let toks = split_from(s, 1, n + 1);
    assert(toks == seq![t]);
    lemma_plain_tag_trims_to_itself(t);
    assert(toks.subrange(1, 1) =~= Seq::<Seq<char>>::empty());
    assert(trimmed(s, 0, 0) =~= Seq::<char>::empty());
    assert(s.subrange(0, 0) =~= Seq::<char>::empty());
    assert(spec_parse(s, 0, n + 3) == (ParseStepV::Done {
        payload: PayloadV {
            prolog: Seq::empty(),
            raw: Seq::empty(),
            node: Some(empty_element(t)),
            rem: n + 3,
        },
    }));
}

/// For every plain tag `t`, `<t></t>` parses to the empty element tagged `t`.
proof fn lemma_parse_container_form(t: Seq<char>)
    requires
        plain_tag(t),
    ensures
        spec_document(seq!['<'] + t + seq!['>'] + seq!['<', '/'] + t + seq!['>']) == (DocV::DocOk {
            node: empty_element(t),
        }),
{
    let s = seq!['<'] + t + seq!['>'] + seq!['<', '/'] + t + seq!['>'];
    let n = t.len() as int;
    assert(s.len() == 2 * n + 5);
    assert(s[0] == '<');
    assert(s[n + 1] == '>');
    assert(s[n + 2] == '<');
    assert(s[n + 3] == '/');
    assert(s[2 * n + 4] == '>');
    crate::text::lemma_find_char_is(s, 0, 2 * n + 5, '<', 0);
    assert forall|j: int| 1 <= j < n + 1 implies s[j] == t[j - 1] by {}
    crate::text::lemma_find_char_is(s, 1, 2 * n + 5, '>', n + 1);
    assert(s[n] != '/');
    assert forall|j: int| 1 <= j < n + 1 implies !crate::is_space_char(#[trigger] s[j]) && s[j]
        != '"' by {
        assert(s[j] == t[j - 1]);
    }
    crate::split_unquoted::lemma_split_plain(s, 1, n + 1);
    assert(s.subrange(1, n + 1) =~= t);
    let toks = split_from(s, 1, n + 1);
    assert(toks == seq![t]);
    lemma_plain_tag_trims_to_itself(t);
    assert(toks.subrange(1, 1) =~= Seq::<Seq<char>>::empty());
    let pat = seq!['<', '/'] + t + seq!['>'];
    assert(s.subrange(n + 2, 2 * n + 5) =~= pat);
    assert(find_sub(s, n + 2, 2 * n + 5, pat) == Some(n + 2));
    assert(trim_seq(Seq::<char>::empty()) =~= Seq::<char>::empty());
    assert(trimmed(s, 0, 0) =~= Seq::<char>::empty());
    assert(s.subrange(0, 0) =~= Seq::<char>::empty());
    assert(spec_children(s, n + 2, n + 2, Seq::empty(), Seq::empty()) == (ChildrenV::CDone {
        content: Seq::empty(),
        groups: Seq::empty(),
    }));
    assert(spec_parse(s, 0, 2 * n + 5) == (ParseStepV::Done {
        payload: PayloadV {
            prolog: Seq::empty(),
            raw: Seq::empty(),
            node: Some(empty_element(t)),
            rem: 2 * n + 5,
        },
    }));
}

/// Element text that parsing hands back exactly as written: it holds no `<`
/// (which would start a child) and neither starts nor ends with whitespace
/// (which trimming would remove).
pub open spec fn plain_content(c: Seq<char>) -> bool {
    &&& c.len() > 0
    &&& !crate::is_space_char(c[0])
    &&& !crate::is_space_char(c[c.len() - 1])
    &&& forall|i: int| 0 <= i < c.len() ==> (#[trigger] c[i]) != '<'
}

/// Law: round trip of a text element. For every plain tag `t` and plain
/// content `c`, the document `<t>c</t>` parses to the element tagged `t`
/// holding exactly the content `c` — no attributes, no children — and that
/// element renders back to the very same document.
#[verifier::rlimit(100)]
#[verifier::spinoff_prover]
pub proof fn lemma_text_element_round_trip(t: Seq<char>, c: Seq<char>)
    requires
        plain_tag(t),
        plain_content(c),
    ensures
        ({
            let doc = seq!['<'] + t + seq!['>'] + c + seq!['<', '/'] + t + seq!['>'];
            let node = NodeV {
                tag: t,
                attrs: Seq::empty(),
                groups: Seq::empty(),
                content: c,
            };
            &&& spec_document(doc) == (DocV::DocOk { node })
            &&& crate::node::render_node(node) == doc
        }),
{
    let doc = seq!['<'] + t + seq!['>'] + c + seq!['<', '/'] + t + seq!['>'];
    let node = NodeV { tag: t, attrs: Seq::empty(), groups: Seq::empty(), content: c };
    let n = t.len() as int;
    let m = c.len() as int;
    let s = doc;
    assert(s.len() == 2 * n + m + 5);
    assert(s[0] == '<');
    assert(s[n + 1] == '>');
    assert forall|i: int| 0 <= i < m implies s[n + 2 + i] == c[i] by {}
    assert(s[n + m + 2] == '<');
    assert(s[n + m + 3] == '/');
    assert(s[2 * n + m + 4] == '>');
    crate::text::lemma_find_char_is(s, 0, s.len() as int, '<', 0);
    assert forall|j: int| 1 <= j < n + 1 implies s[j] == t[j - 1] by {}
    crate::text::lemma_find_char_is(s, 1, s.len() as int, '>', n + 1);
    assert(s[n] != '/');
    assert forall|j: int| 1 <= j < n + 1 implies !crate::is_space_char(#[trigger] s[j]) && s[j]
        != '"' by {
        assert(s[j] == t[j - 1]);
    }
    crate::split_unquoted::lemma_split_plain(s, 1, n + 1);
    assert(s.subrange(1, n + 1) =~= t);
    let toks = split_from(s, 1, n + 1);
    assert(toks == seq![t]);
    lemma_plain_tag_trims_to_itself(t);
    assert(toks.subrange(1, 1) =~= Seq::<Seq<char>>::empty());
    let pat = seq!['<', '/'] + t + seq!['>'];
    assert(s.subrange(n + m + 2, s.len() as int) =~= pat);
    assert forall|q: int| n + 2 <= q < n + m + 2 implies !crate::text::match_at(s, pat, q) by {
        assert(s[q] == c[q - n - 2]);
        if crate::text::match_at(s, pat, q) {
            assert(s.subrange(q, q + pat.len() as int)[0] == pat[0]);
        }
    }
    crate::text::lemma_find_sub_is(s, n + 2, s.len() as int, pat, n + m + 2);
    crate::text::lemma_find_char(s, n + 2, n + m + 2, '<');
    match find_char(s, n + 2, n + m + 2, '<') {
        Some(i) => {
            assert(s[i] == c[i - n - 2]);
            assert(false);
        },
        None => {},
    }
    assert(s.subrange(n + 2, n + m + 2) =~= c);
    assert(crate::text::skip_spaces(s, n + 2, n + m + 2) == n + 2);
    assert(crate::text::rskip_spaces(s, n + 2, n + m + 2) == n + m + 2);
    assert(spec_parse(s, n + 2, n + m + 2) == (ParseStepV::Done {
        payload: PayloadV { prolog: c, raw: Seq::empty(), node: None, rem: n + 2 },
    }));
    assert(Seq::<char>::empty() + c =~= c);
    assert(spec_children(s, n + 2, n + m + 2, Seq::empty(), Seq::empty()) == (ChildrenV::CDone {
        content: c,
        groups: Seq::empty(),
    }));
    assert(crate::text::skip_spaces(c, 0, m) == 0);
    assert(crate::text::rskip_spaces(c, 0, m) == m);
    assert(trim_seq(c) =~= c);
    assert(trimmed(s, 0, 0) =~= Seq::<char>::empty());
    assert(s.subrange(0, 0) =~= Seq::<char>::empty());
    assert(spec_parse(s, 0, s.len() as int) == (ParseStepV::Done {
        payload: PayloadV {
            prolog: Seq::empty(),
            raw: Seq::empty(),
            node: Some(node),
            rem: s.len() as int,
        },
    }));
    assert(crate::node::render_node(node) =~= doc);
}

/// An attribute key that tokenizes as written: no whitespace, no quote, no
/// `=` (which would split key from value early) and no `>` (which would end
/// the tag early).
pub open spec fn plain_attr_key(k: Seq<char>) -> bool {
    &&& k.len() > 0
    &&& forall|i: int|
        0 <= i < k.len() ==> !crate::is_space_char(#[trigger] k[i]) && k[i] != '"' && k[i] != '='
            && k[i] != '>'
}

/// An attribute value that parsing hands back exactly as written: no quote
/// (which would end the value) and no `>` (which would end the tag); any
/// whitespace inside is fine — keeping it whole is the quote-aware splitter's
/// very task.
pub open spec fn plain_attr_value(v: Seq<char>) -> bool {
    forall|i: int| 0 <= i < v.len() ==> (#[trigger] v[i]) != '"' && v[i] != '>'
}

/// Law: round trip of a quoted attribute. For every plain tag `t`, plain key
/// `k` and plain value `v` — spaces in `v` included — the element carrying
/// just the attribute `k="v"` renders as `<t k="v"/>`, and that document
/// parses back to the very same element: the value stays one attribute, not
/// several tokens.
#[verifier::rlimit(100)]
#[verifier::spinoff_prover]
pub proof fn lemma_attribute_round_trip(t: Seq<char>, k: Seq<char>, v: Seq<char>)
    requires
        plain_tag(t),
        plain_attr_key(k),
        plain_attr_value(v),
    ensures
        ({
            let node = NodeV { tag: t, attrs: seq![(k, v)], groups: Seq::empty(), content: Seq::empty() };
            let doc = seq!['<'] + t + seq![' '] + k + seq!['=', '"'] + v + seq!['"', '/', '>'];
            &&& crate::node::render_node(node) == doc
            &&& spec_document(doc) == (DocV::DocOk { node })
        }),
{
    reveal_with_fuel(split_from, 3);
    reveal_with_fuel(parse_attrs, 3);
    reveal_with_fuel(crate::node::render_attrs, 2);
    let node = NodeV { tag: t, attrs: seq![(k, v)], groups: Seq::empty(), content: Seq::empty() };
    let s = seq!['<'] + t + seq![' '] + k + seq!['=', '"'] + v + seq!['"', '/', '>'];
    let n = t.len() as int;
    let m = k.len() as int;
    let w = v.len() as int;
    assert(s.len() == n + m + w + 7);
    assert(seq![(k, v)].subrange(1, 1) =~= Seq::<(Seq<char>, Seq<char>)>::empty());
    assert(crate::node::render_node(node) =~= s);
    assert(s[0] == '<');
    assert forall|i: int| 0 <= i < n implies s[1 + i] == t[i] by {}
    assert(s[n + 1] == ' ');
    assert forall|i: int| 0 <= i < m implies s[n + 2 + i] == k[i] by {}
    assert(s[n + m + 2] == '=');
    assert(s[n + m + 3] == '"');
    assert forall|i: int| 0 <= i < w implies s[n + m + 4 + i] == v[i] by {}
    assert(s[n + m + w + 4] == '"');
    assert(s[n + m + w + 5] == '/');
    assert(s[n + m + w + 6] == '>');
    crate::text::lemma_find_char_is(s, 0, s.len() as int, '<', 0);
    assert forall|j: int| 1 <= j < n + m + w + 6 implies s[j] != '>' by {
        if j < n + 1 {
            assert(s[j] == t[j - 1]);
        } else if n + 2 <= j < n + m + 2 {
            assert(s[j] == k[j - n - 2]);
        } else if n + m + 4 <= j < n + m + w + 4 {
            assert(s[j] == v[j - n - m - 4]);
        }
    }
    crate::text::lemma_find_char_is(s, 1, s.len() as int, '>', n + m + w + 6);
    let cl = n + m + w + 6;
    let attr_end = cl - 1;
    assert(s[cl - 1] == '/');
    // The tag token runs to the blank after the tag.
    assert forall|j: int| 1 <= j < n + 1 implies !crate::is_space_char(#[trigger] s[j]) && s[j]
        != '"' by {
        assert(s[j] == t[j - 1]);
    }
    crate::split_unquoted::lemma_token_end_skip_plain(s, 1, attr_end, n + 1);
    assert(crate::split_unquoted::token_end(s, 1, attr_end, false) == n + 1);
    // The attribute token runs from after the blank to the end of the region:
    // over the key and the `=` as plain text, then through the quoted value.
    assert forall|j: int| n + 2 <= j < n + m + 3 implies !crate::is_space_char(#[trigger] s[j])
        && s[j] != '"' by {
        if j < n + m + 2 {
            assert(s[j] == k[j - n - 2]);
        }
    }
    crate::split_unquoted::lemma_token_end_skip_plain(s, n + 2, attr_end, n + m + 3);
    assert forall|y: int| n + m + 3 < y < n + m + w + 4 implies (#[trigger] s[y]) != '"' by {
        assert(s[y] == v[y - n - m - 4]);
    }
    crate::split_unquoted::lemma_token_end_quoted(s, n + m + 3, attr_end, n + m + w + 4);
    assert(crate::split_unquoted::token_end(s, n + 2, attr_end, false) == attr_end);
    // So the region splits into exactly the tag token and the attribute token.
    let tok2 = k + seq!['=', '"'] + v + seq!['"'];
    assert(s.subrange(1, n + 1) =~= t);
    assert(s.subrange(n + 2, attr_end) =~= tok2);
    let toks = split_from(s, 1, attr_end);
    assert(toks =~= seq![t, tok2]);
    lemma_plain_tag_trims_to_itself(t);
    // The attribute token parses as `k` and the unquoted `v`.
    assert forall|x: int| 0 <= x < m implies (#[trigger] tok2[x]) != '=' by {
        assert(tok2[x] == k[x]);
    }
    crate::text::lemma_find_char_is(tok2, 0, tok2.len() as int, '=', m);
    let vpart = tok2.subrange(m, tok2.len() as int);
    assert(vpart.len() == w + 3);
    assert(vpart[1] == '"');
    assert(vpart[vpart.len() - 1] == '"');
    assert(tok2.subrange(0, m) =~= k);
    assert(vpart.subrange(2, vpart.len() - 1) =~= v);
    let rest = toks.subrange(1, 2);
    assert(rest =~= seq![tok2]);
    assert(rest.subrange(1, 1) =~= Seq::<Seq<char>>::empty());
    assert(assoc_upsert(Seq::<(Seq<char>, Seq<char>)>::empty(), k, v) =~= seq![(k, v)]);
    assert(parse_attrs(rest, Seq::empty()) == (AttrsV::AOk { attrs: seq![(k, v)] }));
    assert(trimmed(s, 0, 0) =~= Seq::<char>::empty());
    assert(s.subrange(0, 0) =~= Seq::<char>::empty());
    assert(spec_parse(s, 0, s.len() as int) == (ParseStepV::Done {
        payload: PayloadV {
            prolog: Seq::empty(),
            raw: Seq::empty(),
            node: Some(node),
            rem: s.len() as int,
        },
    }));
}

/// Law: error locality for a mismatched closing tag. For any plain tags `a`
/// and `b`, the document `<a><b></a>` fails with `MissingClosingTag` naming
/// `b` — the innermost element left open — on line zero.
#[verifier::rlimit(100)]
#[verifier::spinoff_prover]
pub proof fn lemma_mismatched_closing_tag(a: Seq<char>, b: Seq<char>)
    requires
        plain_tag(a),
        plain_tag(b),
    ensures
        spec_document(
            seq!['<'] + a + seq!['>'] + seq!['<'] + b + seq!['>'] + seq!['<', '/'] + a + seq!['>'],
        ) == (DocV::DocParseFail { kind: ParseErrorV::MissingClosingTag(b), line: 0 }),
{
    let s = seq!['<'] + a + seq!['>'] + seq!['<'] + b + seq!['>'] + seq!['<', '/'] + a + seq!['>'];
    let n = a.len() as int;
    let p = b.len() as int;
    assert(s.len() == 2 * n + p + 7);
    assert(s[0] == '<');
    assert forall|i: int| 0 <= i < n implies s[1 + i] == a[i] by {}
    assert(s[n + 1] == '>');
    assert(s[n + 2] == '<');
    assert forall|i: int| 0 <= i < p implies s[n + 3 + i] == b[i] by {}
    assert(s[n + p + 3] == '>');
    assert(s[n + p + 4] == '<');
    assert(s[n + p + 5] == '/');
    assert forall|i: int| 0 <= i < n implies s[n + p + 6 + i] == a[i] by {}
    assert(s[2 * n + p + 6] == '>');
    // The outer element is tagged `a` and closed by the trailing `</a>`.
    crate::text::lemma_find_char_is(s, 0, s.len() as int, '<', 0);
    assert forall|j: int| 1 <= j < n + 1 implies s[j] == a[j - 1] by {}
    crate::text::lemma_find_char_is(s, 1, s.len() as int, '>', n + 1);
    assert(s[n] != '/');
    assert forall|j: int| 1 <= j < n + 1 implies !crate::is_space_char(#[trigger] s[j]) && s[j]
        != '"' by {}
    crate::split_unquoted::lemma_split_plain(s, 1, n + 1);
    assert(s.subrange(1, n + 1) =~= a);
    lemma_plain_tag_trims_to_itself(a);
    assert(split_from(s, 1, n + 1).subrange(1, 1) =~= Seq::<Seq<char>>::empty());
    let pat_a = seq!['<', '/'] + a + seq!['>'];
    assert(s.subrange(n + p + 4, s.len() as int) =~= pat_a);
    assert forall|q: int| n + 2 <= q < n + p + 4 implies !crate::text::match_at(s, pat_a, q) by {
        if crate::text::match_at(s, pat_a, q) {
            assert(s.subrange(q, q + pat_a.len() as int)[0] == pat_a[0]);
            assert(s.subrange(q, q + pat_a.len() as int)[1] == pat_a[1]);
            if q == n + 2 {
                assert(s[q + 1] == b[0]);
            } else if q < n + p + 3 {
                assert(s[q] == b[q - n - 3]);
            }
        }
    }
    crate::text::lemma_find_sub_is(s, n + 2, s.len() as int, pat_a, n + p + 4);
    // The inner element is tagged `b`, and its closing tag is nowhere inside
    // the outer element's region.
    crate::text::lemma_find_char_is(s, n + 2, n + p + 4, '<', n + 2);
    assert forall|j: int| n + 3 <= j < n + p + 3 implies s[j] != '>' by {
        assert(s[j] == b[j - n - 3]);
    }
    crate::text::lemma_find_char_is(s, n + 3, n + p + 4, '>', n + p + 3);
    assert(s[n + p + 2] != '/');
    assert forall|j: int| n + 3 <= j < n + p + 3 implies !crate::is_space_char(#[trigger] s[j])
        && s[j] != '"' by {
        assert(s[j] == b[j - n - 3]);
    }
    crate::split_unquoted::lemma_split_plain(s, n + 3, n + p + 3);
    assert(s.subrange(n + 3, n + p + 3) =~= b);
    lemma_plain_tag_trims_to_itself(b);
    assert(split_from(s, n + 3, n + p + 3).subrange(1, 1) =~= Seq::<Seq<char>>::empty());
    let pat_b = seq!['<', '/'] + b + seq!['>'];
    assert(find_sub(s, n + p + 4, n + p + 4, pat_b) is None);
    assert forall|j: int| 0 <= j < n + p + 3 implies (#[trigger] s[j]) != '\n' by {
        if 1 <= j < n + 1 {
            assert(s[j] == a[j - 1]);
            assert(!crate::is_space_char(a[j - 1]));
        } else if n + 3 <= j {
            assert(s[j] == b[j - n - 3]);
            assert(!crate::is_space_char(b[j - n - 3]));
        }
    }
    crate::text::lemma_count_newlines_zero(s, 0, n + p + 3);
    assert(spec_parse(s, n + 2, n + p + 4) == (ParseStepV::Fail {
        kind: ParseErrorV::MissingClosingTag(b),
        line: 0,
    }));
    assert(spec_children(s, n + 2, n + p + 4, Seq::empty(), Seq::empty()) == (ChildrenV::CFail {
        kind: ParseErrorV::MissingClosingTag(b),
        line: 0,
    }));
    assert(spec_parse(s, 0, s.len() as int) == (ParseStepV::Fail {
        kind: ParseErrorV::MissingClosingTag(b),
        line: 0,
    }));
}

/// Law: round trip of the indented form, self-closing case. For every plain
/// tag `t`, the empty element's indented text (`<t/>` on a line of its own)
/// parses back to the empty element: the newline pretty mode adds is ignored
/// after the root.
pub proof fn lemma_pretty_self_closing_round_trip(t: Seq<char>)
    requires
        plain_tag(t),
    ensures
        spec_document(crate::node::render_node_pretty(empty_element(t), 0)) == (DocV::DocOk {
            node: empty_element(t),
        }),
{
    let s = seq!['<'] + t + seq!['/', '>', '\n'];
    let n = t.len() as int;
    assert(crate::node::indent(0) =~= Seq::<char>::empty());
    assert(crate::node::render_node_pretty(empty_element(t), 0) =~= s);
    assert(s.len() == n + 4);
    assert(s[0] == '<');
    assert(s[n + 1] == '/');
    assert(s[n + 2] == '>');
    crate::text::lemma_find_char_is(s, 0, n + 4, '<', 0);
    assert forall|j: int| 1 <= j < n + 2 implies s[j] != '>' by {
        if j <= n {
            assert(s[j] == t[j - 1]);
        }
    }
    crate::text::lemma_find_char_is(s, 1, n + 4, '>', n + 2);
    assert forall|j: int| 1 <= j < n + 1 implies !crate::is_space_char(#[trigger] s[j]) && s[j]
        != '"' by {
        assert(s[j] == t[j - 1]);
    }
    crate::split_unquoted::lemma_split_plain(s, 1, n + 1);
    assert(s.subrange(1, n + 1) =~= t);
    let toks = split_from(s, 1, n + 1);
    assert(toks == seq![t]);
    lemma_plain_tag_trims_to_itself(t);
    assert(toks.subrange(1, 1) =~= Seq::<Seq<char>>::empty());
    assert(trimmed(s, 0, 0) =~= Seq::<char>::empty());
    assert(s.subrange(0, 0) =~= Seq::<char>::empty());
    assert(spec_parse(s, 0, n + 4) == (ParseStepV::Done {
        payload: PayloadV {
            prolog: Seq::empty(),
            raw: Seq::empty(),
            node: Some(empty_element(t)),
            rem: n + 3,
        },
    }));
}

/// Law: round trip of the indented form, text-element case. For every plain
/// tag `t` and plain content `c`, the element's indented text (`<t>c</t>` on
/// one line, newline after) parses back to the very same element.
#[verifier::rlimit(100)]
#[verifier::spinoff_prover]
pub proof fn lemma_pretty_text_element_round_trip(t: Seq<char>, c: Seq<char>)
    requires
        plain_tag(t),
        plain_content(c),
    ensures
        ({
            let node = NodeV {
                tag: t,
                attrs: Seq::empty(),
                groups: Seq::empty(),
                content: c,
            };
            spec_document(crate::node::render_node_pretty(node, 0)) == (DocV::DocOk { node })
        }),
{
    reveal_with_fuel(crate::node::render_groups_pretty, 2);
    let node = NodeV { tag: t, attrs: Seq::empty(), groups: Seq::empty(), content: c };
    let s = seq!['<'] + t + seq!['>'] + c + seq!['<', '/'] + t + seq!['>', '\n'];
    let n = t.len() as int;
    let m = c.len() as int;
    assert(crate::node::indent(0) =~= Seq::<char>::empty());
    assert(crate::node::render_groups_pretty(Seq::empty(), 1) =~= Seq::<char>::empty());
    assert(crate::node::render_node_pretty(node, 0) =~= s);
    assert(s.len() == 2 * n + m + 6);
    assert(s[0] == '<');
    assert(s[n + 1] == '>');
    assert forall|i: int| 0 <= i < m implies s[n + 2 + i] == c[i] by {}
    assert(s[n + m + 2] == '<');
    assert(s[n + m + 3] == '/');
    assert(s[2 * n + m + 4] == '>');
    assert(s[2 * n + m + 5] == '\n');
    crate::text::lemma_find_char_is(s, 0, s.len() as int, '<', 0);
    assert forall|j: int| 1 <= j < n + 1 implies s[j] == t[j - 1] by {}
    crate::text::lemma_find_char_is(s, 1, s.len() as int, '>', n + 1);
    assert(s[n] != '/');
    assert forall|j: int| 1 <= j < n + 1 implies !crate::is_space_char(#[trigger] s[j]) && s[j]
        != '"' by {
        assert(s[j] == t[j - 1]);
    }
    crate::split_unquoted::lemma_split_plain(s, 1, n + 1);
    assert(s.subrange(1, n + 1) =~= t);
    let toks = split_from(s, 1, n + 1);
    assert(toks == seq![t]);
    lemma_plain_tag_trims_to_itself(t);
    assert(toks.subrange(1, 1) =~= Seq::<Seq<char>>::empty());
    let pat = seq!['<', '/'] + t + seq!['>'];
    assert(s.subrange(n + m + 2, 2 * n + m + 5) =~= pat);
    assert forall|q: int| n + 2 <= q < n + m + 2 implies !crate::text::match_at(s, pat, q) by {
        assert(s[q] == c[q - n - 2]);
        if crate::text::match_at(s, pat, q) {
            assert(s.subrange(q, q + pat.len() as int)[0] == pat[0]);
        }
    }
    crate::text::lemma_find_sub_is(s, n + 2, s.len() as int, pat, n + m + 2);
    crate::text::lemma_find_char(s, n + 2, n + m + 2, '<');
    match find_char(s, n + 2, n + m + 2, '<') {
        Some(i) => {
            assert(s[i] == c[i - n - 2]);
            assert(false);
        },
        None => {},
    }
    assert(s.subrange(n + 2, n + m + 2) =~= c);
    assert(crate::text::skip_spaces(s, n + 2, n + m + 2) == n + 2);
    assert(crate::text::rskip_spaces(s, n + 2, n + m + 2) == n + m + 2);
    assert(spec_parse(s, n + 2, n + m + 2) == (ParseStepV::Done {
        payload: PayloadV { prolog: c, raw: Seq::empty(), node: None, rem: n + 2 },
    }));
    assert(Seq::<char>::empty() + c =~= c);
    assert(spec_children(s, n + 2, n + m + 2, Seq::empty(), Seq::empty()) == (ChildrenV::CDone {
        content: c,
        groups: Seq::empty(),
    }));
    assert(crate::text::skip_spaces(c, 0, m) == 0);
    assert(crate::text::rskip_spaces(c, 0, m) == m);
    assert(trim_seq(c) =~= c);
    assert(trimmed(s, 0, 0) =~= Seq::<char>::empty());
    assert(s.subrange(0, 0) =~= Seq::<char>::empty());
    assert(spec_parse(s, 0, s.len() as int) == (ParseStepV::Done {
        payload: PayloadV {
            prolog: Seq::empty(),
            raw: Seq::empty(),
            node: Some(node),
            rem: 2 * n + m + 5,
        },
    }));
}

/// A plain tag has no whitespace to trim.
proof fn lemma_plain_tag_trims_to_itself(t: Seq<char>)
    requires
        plain_tag(t),
    ensures
        trim_seq(t) == t,
{
    let n = t.len() as int;
    assert(crate::text::skip_spaces(t, 0, n) == 0);
    assert(crate::text::rskip_spaces(t, 0, n) == n);
    assert(t.subrange(0, n) =~= t);
}

/// The sentinel returned when the input holds no tag at all.
pub open spec fn sentinel_node_v() -> NodeV {
    NodeV {
        tag: Seq::empty(),
        attrs: Seq::empty(),
        groups: Seq::empty(),
        content: Seq::empty(),
    }
}

/// The outcome of parsing a whole document.
pub ghost enum DocV {
    DocOk { node: NodeV },
    DocParseFail { kind: ParseErrorV, line: nat },
    DocOutsideRoot,
}

/// What parsing a whole document yields: one engine step on the whole
/// buffer. A buffer with no tag at all gives the sentinel empty-tag node;
/// otherwise non-whitespace text before the root element is rejected.
pub open spec fn spec_document(t: Seq<char>) -> DocV {
    match spec_parse(t, 0, t.len() as int) {
        ParseStepV::Fail { kind, line } => DocV::DocParseFail { kind, line },
        ParseStepV::Done { payload } => {
            match payload.node {
                None => DocV::DocOk { node: sentinel_node_v() },
                Some(n) => {
                    if payload.prolog.len() > 0 {
                        DocV::DocOutsideRoot
                    } else {
                        DocV::DocOk { node: n }
                    }
                },
            }
        },
    }
}

/// What one executable engine step hands back; the image of [`PayloadV`].
pub(crate) struct Payload {
    pub(crate) prolog: String,
    pub(crate) raw: String,
    pub(crate) node: Option<Node>,
    pub(crate) rem: usize,
}

/// The image of an `Option<Node>` under the node view.
pub(crate) open spec fn opt_node_view(o: Option<Node>) -> Option<NodeV> {
    match o {
        Some(n) => Some(n@),
        None => None,
    }
}

/// The executable engine step returns exactly what [`spec_parse`] says.
pub(crate) open spec fn step_matches(
    r: Result<Payload, Error>,
    s: Seq<char>,
    start: int,
    end: int,
) -> bool {
    match r {
        Ok(p) => start <= p.rem <= end && spec_parse(s, start, end) == (ParseStepV::Done {
            payload: PayloadV {
                prolog: p.prolog@,
                raw: p.raw@,
                node: opt_node_view(p.node),
                rem: p.rem as int,
            },
        }),
        Err(e) => match e {
            Error::ParseError(k, line) => spec_parse(s, start, end) == (ParseStepV::Fail {
                kind: k@,
                line: line as nat,
            }),
            _ => false,
        },
    }
}

/// One engine step on `src[start..end)`; `chars` holds the same text as `src`
/// for constant-time indexing.
#[verifier::loop_isolation(false)]
#[verifier::rlimit(60)]
pub(crate) fn load_from_slice(src: &str, chars: &Vec<char>, start: usize, end: usize) -> (r:
    Result<Payload, Error>)
    requires
        chars@ == src@,
        start <= end <= chars@.len(),
    ensures
        step_matches(r, chars@, start as int, end as int),
    decreases end - start,
{
    let ghost s = chars@;
    let ghost st = start as int;
    let ghost en = end as int;
    proof {
        lemma_find_char(s, st, en, '<');
    }
    let ol = match find_char_in(chars, start, end, '<') {
        None => {
            let t_lo = skip_spaces_in(chars, start, end);
            let t_hi = rskip_spaces_in(chars, t_lo, end);
            return Ok(
                Payload {
                    prolog: src.substring_char(t_lo, t_hi).to_owned(),
                    raw: String::new(),
                    node: None,
                    rem: start,
                },
            );
        },
        Some(v) => v,
    };
    proof {
        lemma_find_char(s, ol + 1, en, '>');
    }
    let cl = match find_char_in(chars, ol + 1, end, '>') {
        None => {
            return Err(
                Error::ParseError(
                    ParseError::MissingClosingDelimiter,
                    count_newlines_in(chars, 0, ol),
                ),
            );
        },
        Some(v) => v,
    };
    let attr_end = if chars[cl - 1] == '/' {
        cl - 1
    } else {
        cl
    };
    let toks = split_ranges(chars, ol + 1, attr_end);
    let ghost stoks = split_from(s, ol + 1int, attr_end as int);
    let mut tag_lo: usize = 0;
    let mut tag_hi: usize = 0;
    if toks.len() > 0 {
        let (t0a, t0b) = toks[0];
        tag_lo = skip_spaces_in(chars, t0a, t0b);
        tag_hi = rskip_spaces_in(chars, tag_lo, t0b);
        proof {
            crate::text::lemma_trim_subrange(s, t0a as int, t0b as int);
        }
    }
    let ghost tag = if stoks.len() == 0 {
        Seq::<char>::empty()
    } else {
        trim_seq(stoks[0])
    };
    proof {
        assert(tag =~= s.subrange(tag_lo as int, tag_hi as int));
    }
    if tag_hi > tag_lo {
        let c0 = chars[tag_lo];
        if c0 == '?' || c0 == '!' {
            return load_from_slice(src, chars, cl + 1, end);
        }
    }
    let ghost rest = if stoks.len() == 0 {
        stoks
    } else {
        stoks.subrange(1, stoks.len() as int)
    };
    let mut attributes: Vec<(String, String)> = Vec::new();
    let mut ti: usize = 1;
    proof {
        assert(attrs_view(attributes@) =~= Seq::<(Seq<char>, Seq<char>)>::empty());
        if stoks.len() > 0 {
            assert(stoks.subrange(1, stoks.len() as int) =~= stoks.subrange(
                ti as int,
                stoks.len() as int,
            ));
        }
    }
    while ti < toks.len()
        invariant
            1 <= ti,
            ti <= toks@.len() || ti == 1,
            parse_attrs(rest, Seq::empty()) == parse_attrs(
                if ti as int <= stoks.len() {
                    stoks.subrange(ti as int, stoks.len() as int)
                } else {
                    Seq::<Seq<char>>::empty()
                },
                attrs_view(attributes@),
            ),
        decreases toks@.len() - ti,
    {
        let (a, b) = toks[ti];
        let ghost t = stoks[ti as int];
        proof {
            assert(t == s.subrange(a as int, b as int));
            crate::text::lemma_find_char_in_subrange(s, a as int, b as int, '=', a as int);
            let tail = stoks.subrange(ti as int, stoks.len() as int);
            assert(tail[0] == t);
            assert(tail.subrange(1, tail.len() as int) =~= stoks.subrange(
                ti + 1int,
                stoks.len() as int,
            ));
        }
        let e = match find_char_in(chars, a, b, '=') {
            None => {
                return Err(
                    Error::ParseError(
                        ParseError::MissingAttributeValue(src.substring_char(a, b).to_owned()),
                        count_newlines_in(chars, 0, cl),
                    ),
                );
            },
            Some(v) => v,
        };
        let ghost v = t.subrange(e - a, t.len() as int);
        proof {
            assert(v.len() == b - e);
            assert forall|x: int| 0 <= x < v.len() implies v[x] == s[e + x] by {
                assert(v[x] == t[e - a + x]);
            }
        }
        if b - e >= 3 && chars[e + 1] == '"' && (chars[b - 1] == '"' || (chars[b - 2] == '"'
            && chars[b - 1] == '/')) {
            let key = src.substring_char(a, e);
            let val = src.substring_char(e + 2, b - 1);
            proof {
                assert(key@ =~= t.subrange(0, e - a));
                assert(val@ =~= v.subrange(2, v.len() - 1));
            }
            let _prev = upsert_attr(&mut attributes, key, val);
        } else {
            return Err(
                Error::ParseError(
                    ParseError::MissingQuotes(src.substring_char(a, b).to_owned()),
                    count_newlines_in(chars, 0, cl),
                ),
            );
        }
        ti = ti + 1;
    }
    let ghost attrs = attrs_view(attributes@);
    proof {
        if stoks.len() >= ti as int {
            assert(stoks.subrange(stoks.len() as int, stoks.len() as int) =~= Seq::<
                Seq<char>,
            >::empty());
        }
        assert(parse_attrs(rest, Seq::empty()) == AttrsV::AOk { attrs });
    }
    let p_lo = skip_spaces_in(chars, start, ol);
    let p_hi = rskip_spaces_in(chars, p_lo, ol);
    let prolog = src.substring_char(p_lo, p_hi).to_owned();
    let raw = src.substring_char(start, ol).to_owned();
    proof {
        assert(prolog@ == trimmed(s, st, ol as int));
    }
    let tag_str = src.substring_char(tag_lo, tag_hi);
    if attr_end < cl {
        let node = new_filled(tag_str, attributes, String::new(), Vec::new());
        proof {
            assert(groups_view(Seq::<(String, Vec<Node>)>::empty()) =~= Seq::<
                (Seq<char>, Seq<NodeV>),
            >::empty());
        }
        return Ok(Payload { prolog, raw, node: Some(node), rem: cl + 1 });
    }
    let mut pat: Vec<char> = Vec::new();
    pat.push('<');
    pat.push('/');
    let mut q: usize = tag_lo;
    proof {
        assert(pat@ =~= seq!['<', '/'] + s.subrange(tag_lo as int, tag_lo as int));
    }
    while q < tag_hi
        invariant
            tag_lo <= q <= tag_hi,
            pat@ == seq!['<', '/'] + s.subrange(tag_lo as int, q as int),
        decreases tag_hi - q,
    {
        let ghost pat_before = pat@;
        let c = chars[q];
        pat.push(c);
        q = q + 1;
        proof {
            assert(pat@ == pat_before.push(c));
            assert(s.subrange(tag_lo as int, q as int) =~= s.subrange(tag_lo as int, q - 1int).push(
                c,
            ));
            assert(pat@ =~= seq!['<', '/'] + s.subrange(tag_lo as int, q as int));
        }
    }
    pat.push('>');
    let ghost spat = seq!['<', '/'] + tag + seq!['>'];
    proof {
        assert(pat@ =~= spat);
        lemma_find_sub(s, cl + 1int, en, spat);
    }
    let ct = match find_sub_in(chars, cl + 1, end, &pat) {
        None => {
            return Err(
                Error::ParseError(
                    ParseError::MissingClosingTag(src.substring_char(tag_lo, tag_hi).to_owned()),
                    count_newlines_in(chars, 0, cl),
                ),
            );
        },
        Some(v) => v,
    };
    let mut content = String::new();
    let mut groups: Vec<(String, Vec<Node>)> = Vec::new();
    let mut cur = cl + 1;
    proof {
        assert(groups_view(groups@) =~= Seq::<(Seq<char>, Seq<NodeV>)>::empty());
    }
    while cur < ct
        invariant
            cl + 1 <= cur <= ct,
            spec_children(s, cl + 1int, ct as int, Seq::empty(), Seq::empty()) == spec_children(
                s,
                cur as int,
                ct as int,
                content@,
                groups_view(groups@),
            ),
        decreases ct - cur,
    {
        let step = load_from_slice(src, chars, cur, ct);
        match step {
            Err(e) => {
                return Err(e);
            },
            Ok(p) => {
                let Payload { prolog: _, raw: praw, node: pnode, rem: prem } = p;
                let ghost g_before = groups_view(groups@);
                let ghost c_before = content@;
                let ghost g2 = match opt_node_view(pnode) {
                    Some(n) => group_add(g_before, n.tag, n),
                    None => g_before,
                };
                match pnode {
                    Some(nd) => {
                        push_group(&mut groups, nd);
                    },
                    None => {},
                }
                if prem <= cur {
                    content.append(src.substring_char(cur, ct));
                    cur = ct;
                } else {
                    content.append(praw.as_str());
                    cur = prem;
                }
            },
        }
    }
    let cv = to_char_vec(content.as_str());
    let c_lo = skip_spaces_in(&cv, 0, cv.len());
    let c_hi = rskip_spaces_in(&cv, c_lo, cv.len());
    let tcontent = content.as_str().substring_char(c_lo, c_hi).to_owned();
    proof {
        assert(tcontent@ == trim_seq(content@));
    }
    let node = new_filled(tag_str, attributes, tcontent, groups);
    let rem = ct + pat.len();
    Ok(Payload { prolog, raw, node: Some(node), rem })
}

/// Wraps the top-level engine step: an input with no tag at all yields the
/// sentinel empty-tag node, whatever text stood there; otherwise any
/// non-whitespace prolog before the root element is `ContentOutsideRoot`.
pub(crate) fn validate_root(root: Result<Payload, Error>) -> (r: Result<Node, Error>)
    ensures
        match root {
            Ok(p) => {
                match p.node {
                    Some(n) => {
                        if p.prolog@.len() > 0 {
                            r matches Err(Error::ContentOutsideRoot)
                        } else {
                            r matches Ok(out) && out == n
                        }
                    },
                    None => r matches Ok(out) && out@ == sentinel_node_v(),
                }
            },
            Err(e) => r matches Err(e2) && e2 == e,
        },
{
    match root {
        Ok(p) => {
            match p.node {
                Some(n) => {
                    if !p.prolog.as_str().is_empty() {
                        Err(Error::ContentOutsideRoot)
                    } else {
                        Ok(n)
                    }
                },
                None => {
                    let empty = crate::node::new("", String::new());
                    proof {
                        reveal_strlit("");
                        assert(""@ =~= Seq::<char>::empty());
                    }
                    Ok(empty)
                },
            }
        },
        Err(e) => Err(e),
    }
}

/// Parses a whole document held in a string: the root element, or the exact
/// error that [`spec_document`] assigns to the input. A returned tree always
/// satisfies the tree invariant [`crate::node::wf_node`].
pub fn from_string(string: &str) -> (r: Result<Node, Error>)
    ensures
        match r {
            Ok(n) => spec_document(string@) == (DocV::DocOk { node: n@ }) && crate::node::wf_node(
                n@,
            ),
            Err(e) => match e {
                Error::ParseError(k, line) => spec_document(string@) == (DocV::DocParseFail {
                    kind: k@,
                    line: line as nat,
                }),
                Error::ContentOutsideRoot => spec_document(string@) == DocV::DocOutsideRoot,
                _ => false,
            },
        },
{
    let chars = to_char_vec(string);
    let n = chars.len();
    proof {
        lemma_spec_parse_wf(chars@, 0, chars@.len() as int);
    }
    validate_root(load_from_slice(string, &chars, 0, n))
}

} // verus!
