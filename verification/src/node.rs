//! The tree data model: one XML element with its tag, its attributes, its
//! child nodes grouped by tag name, and its text content; together with the
//! mathematical image of a tree ([`NodeV`]) that every contract speaks of.

use vstd::prelude::*;

verus! {

/// Mathematical image of a [`Node`]: the same shape over `Seq<char>`.
///
/// `attrs` and `groups` are association lists in insertion order; a lookup
/// takes the first entry with the key. Trees built by the parser, and kept
/// through `add_attribute`/`add_node`, have unique keys throughout (the
/// [`wf_node`] invariant); [`new_filled`] and the public `attributes` field
/// take the lists exactly as given, so a caller can also build a tree where a
/// key repeats — lookups then see the first entry, rendering emits all.
pub ghost struct NodeV {
    pub tag: Seq<char>,
    pub attrs: Seq<(Seq<char>, Seq<char>)>,
    pub groups: Seq<(Seq<char>, Seq<NodeV>)>,
    pub content: Seq<char>,
}

/// The value under the first entry of `s` whose key is `k`, if any.
pub open spec fn assoc_find<V>(s: Seq<(Seq<char>, V)>, k: Seq<char>) -> Option<V>
    decreases s.len(),
{
    if s.len() == 0 {
        None
    } else if s[0].0 == k {
        Some(s[0].1)
    } else {
        assoc_find(s.subrange(1, s.len() as int), k)
    }
}

/// `s` with the value under `k` replaced by `v` (in place), or with `(k, v)`
/// appended when no entry has the key `k`.
pub open spec fn assoc_upsert<V>(s: Seq<(Seq<char>, V)>, k: Seq<char>, v: V) -> Seq<
    (Seq<char>, V),
>
    decreases s.len(),
{
    if s.len() == 0 {
        seq![(k, v)]
    } else if s[0].0 == k {
        seq![(k, v)] + s.subrange(1, s.len() as int)
    } else {
        seq![s[0]] + assoc_upsert(s.subrange(1, s.len() as int), k, v)
    }
}

/// `gs` with `n` appended to the group keyed by `k`, or with a new one-node
/// group `(k, [n])` appended when no group has the key `k`.
pub open spec fn group_add(gs: Seq<(Seq<char>, Seq<NodeV>)>, k: Seq<char>, n: NodeV) -> Seq<
    (Seq<char>, Seq<NodeV>),
>
    decreases gs.len(),
{
    if gs.len() == 0 {
        seq![(k, seq![n])]
    } else if gs[0].0 == k {
        seq![(gs[0].0, gs[0].1.push(n))] + gs.subrange(1, gs.len() as int)
    } else {
        seq![gs[0]] + group_add(gs.subrange(1, gs.len() as int), k, n)
    }
}

/// A lookup lands on position `i`, the first entry whose key is `k`.
pub proof fn lemma_assoc_find_hit<V>(s: Seq<(Seq<char>, V)>, k: Seq<char>, i: int)
    requires
        0 <= i < s.len(),
        s[i].0 == k,
        forall|j: int| 0 <= j < i ==> s[j].0 != k,
    ensures
        assoc_find(s, k) == Some(s[i].1),
    decreases i,
{
    if i > 0 {
        lemma_assoc_find_hit(s.subrange(1, s.len() as int), k, i - 1);
    }
}

/// A lookup of a key that no entry has finds nothing.
pub proof fn lemma_assoc_find_miss<V>(s: Seq<(Seq<char>, V)>, k: Seq<char>)
    requires
        forall|j: int| 0 <= j < s.len() ==> s[j].0 != k,
    ensures
        assoc_find(s, k) is None,
    decreases s.len(),
{
    if s.len() > 0 {
        lemma_assoc_find_miss(s.subrange(1, s.len() as int), k);
    }
}

/// An upsert whose key the entry at position `i` already has replaces that
/// entry in place.
pub proof fn lemma_assoc_upsert_hit<V>(s: Seq<(Seq<char>, V)>, k: Seq<char>, v: V, i: int)
    requires
        0 <= i < s.len(),
        s[i].0 == k,
        forall|j: int| 0 <= j < i ==> s[j].0 != k,
    ensures
        assoc_upsert(s, k, v) == s.update(i, (k, v)),
    decreases i,
{
    if i == 0 {
        assert(assoc_upsert(s, k, v) =~= s.update(i, (k, v)));
    } else {
        lemma_assoc_upsert_hit(s.subrange(1, s.len() as int), k, v, i - 1);
        assert(assoc_upsert(s, k, v) =~= s.update(i, (k, v)));
    }
}

/// An upsert whose key no entry has appends a new entry.
pub proof fn lemma_assoc_upsert_miss<V>(s: Seq<(Seq<char>, V)>, k: Seq<char>, v: V)
    requires
        forall|j: int| 0 <= j < s.len() ==> s[j].0 != k,
    ensures
        assoc_upsert(s, k, v) == s.push((k, v)),
    decreases s.len(),
{
    if s.len() == 0 {
        assert(assoc_upsert(s, k, v) =~= s.push((k, v)));
    } else {
        lemma_assoc_upsert_miss(s.subrange(1, s.len() as int), k, v);
        assert(assoc_upsert(s, k, v) =~= s.push((k, v)));
    }
}

/// Adding a node whose tag the group at position `i` already carries appends
/// to that group in place.
pub proof fn lemma_group_add_hit(gs: Seq<(Seq<char>, Seq<NodeV>)>, k: Seq<char>, n: NodeV, i: int)
    requires
        0 <= i < gs.len(),
        gs[i].0 == k,
        forall|j: int| 0 <= j < i ==> gs[j].0 != k,
    ensures
        group_add(gs, k, n) == gs.update(i, (gs[i].0, gs[i].1.push(n))),
    decreases i,
{
    if i == 0 {
        assert(group_add(gs, k, n) =~= gs.update(i, (gs[i].0, gs[i].1.push(n))));
    } else {
        lemma_group_add_hit(gs.subrange(1, gs.len() as int), k, n, i - 1);
        assert(group_add(gs, k, n) =~= gs.update(i, (gs[i].0, gs[i].1.push(n))));
    }
}

/// Adding a node whose tag no group carries appends a new one-node group.
pub proof fn lemma_group_add_miss(gs: Seq<(Seq<char>, Seq<NodeV>)>, k: Seq<char>, n: NodeV)
    requires
        forall|j: int| 0 <= j < gs.len() ==> gs[j].0 != k,
    ensures
        group_add(gs, k, n) == gs.push((k, seq![n])),
    decreases gs.len(),
{
    if gs.len() == 0 {
        assert(group_add(gs, k, n) =~= gs.push((k, seq![n])));
    } else {
        lemma_group_add_miss(gs.subrange(1, gs.len() as int), k, n);
        assert(group_add(gs, k, n) =~= gs.push((k, seq![n])));
    }
}

/// No two entries of the list carry the same key.
pub open spec fn unique_keys<V>(s: Seq<(Seq<char>, V)>) -> bool {
    forall|i: int, j: int| 0 <= i < j < s.len() ==> (#[trigger] s[i].0) != (#[trigger] s[j].0)
}

/// An upsert keeps the keys of an association list unique.
pub proof fn lemma_assoc_upsert_unique<V>(s: Seq<(Seq<char>, V)>, k: Seq<char>, v: V)
    requires
        unique_keys(s),
    ensures
        unique_keys(assoc_upsert(s, k, v)),
{
    if exists|i: int| 0 <= i < s.len() && (#[trigger] s[i].0) == k {
        let i = choose|i: int| 0 <= i < s.len() && (#[trigger] s[i].0) == k;
        lemma_assoc_upsert_hit(s, k, v, i);
        let u = s.update(i, (k, v));
        assert forall|a: int, b: int| 0 <= a < b < u.len() implies (#[trigger] u[a].0)
            != (#[trigger] u[b].0) by {
            assert(u[a].0 == s[a].0);
            assert(u[b].0 == s[b].0);
        }
    } else {
        lemma_assoc_upsert_miss(s, k, v);
        let u = s.push((k, v));
        assert forall|a: int, b: int| 0 <= a < b < u.len() implies (#[trigger] u[a].0)
            != (#[trigger] u[b].0) by {
            assert(u[a].0 == s[a].0);
            if b < s.len() {
                assert(u[b].0 == s[b].0);
            } else {
                assert(u[b].0 == k);
            }
        }
    }
}

/// Adding a node keeps the group keys unique.
pub proof fn lemma_group_add_unique(gs: Seq<(Seq<char>, Seq<NodeV>)>, k: Seq<char>, n: NodeV)
    requires
        unique_keys(gs),
    ensures
        unique_keys(group_add(gs, k, n)),
{
    if exists|i: int| 0 <= i < gs.len() && (#[trigger] gs[i].0) == k {
        let i = choose|i: int| 0 <= i < gs.len() && (#[trigger] gs[i].0) == k;
        lemma_group_add_hit(gs, k, n, i);
        let u = gs.update(i, (gs[i].0, gs[i].1.push(n)));
        assert forall|a: int, b: int| 0 <= a < b < u.len() implies (#[trigger] u[a].0)
            != (#[trigger] u[b].0) by {
            assert(u[a].0 == gs[a].0);
            assert(u[b].0 == gs[b].0);
        }
    } else {
        lemma_group_add_miss(gs, k, n);
        let u = gs.push((k, seq![n]));
        assert forall|a: int, b: int| 0 <= a < b < u.len() implies (#[trigger] u[a].0)
            != (#[trigger] u[b].0) by {
            assert(u[a].0 == gs[a].0);
            if b < gs.len() {
                assert(u[b].0 == gs[b].0);
            } else {
                assert(u[b].0 == k);
            }
        }
    }
}

/// Every node of the list carries the tag `k`, and is itself well-formed.
pub open spec fn wf_group_nodes(k: Seq<char>, ns: Seq<NodeV>) -> bool
    decreases ns,
{
    if ns.len() == 0 {
        true
    } else {
        ns[0].tag == k && wf_node(ns[0]) && wf_group_nodes(k, ns.subrange(1, ns.len() as int))
    }
}

/// Every group holds only nodes that carry the group's own key.
pub open spec fn wf_groups(gs: Seq<(Seq<char>, Seq<NodeV>)>) -> bool
    decreases gs,
{
    if gs.len() == 0 {
        true
    } else {
        wf_group_nodes(gs[0].0, gs[0].1) && wf_groups(gs.subrange(1, gs.len() as int))
    }
}

/// The tree invariant: throughout the tree, the attribute keys and the group
/// keys are unique, and every child under a tag key carries that tag.
pub open spec fn wf_node(n: NodeV) -> bool
    decreases n,
{
    unique_keys(n.attrs) && unique_keys(n.groups) && wf_groups(n.groups)
}

/// Appending a node of the right tag keeps a group well-formed.
pub proof fn lemma_wf_group_nodes_push(k: Seq<char>, ns: Seq<NodeV>, n: NodeV)
    requires
        wf_group_nodes(k, ns),
        n.tag == k,
        wf_node(n),
    ensures
        wf_group_nodes(k, ns.push(n)),
    decreases ns.len(),
{
    if ns.len() == 0 {
        assert(ns.push(n).subrange(1, 1) =~= Seq::<NodeV>::empty());
        reveal_with_fuel(wf_group_nodes, 2);
    } else {
        lemma_wf_group_nodes_push(k, ns.subrange(1, ns.len() as int), n);
        assert(ns.push(n).subrange(1, ns.len() + 1int) =~= ns.subrange(1, ns.len() as int).push(n));
    }
}

/// Law: adding a node under its own tag keeps the group list well-formed:
/// the tree invariant survives [`Node::add_node`].
pub proof fn lemma_group_add_wf(gs: Seq<(Seq<char>, Seq<NodeV>)>, n: NodeV)
    requires
        wf_groups(gs),
        wf_node(n),
    ensures
        wf_groups(group_add(gs, n.tag, n)),
    decreases gs.len(),
{
    let k = n.tag;
    let u = group_add(gs, k, n);
    if gs.len() == 0 {
        assert(u.subrange(1, 1) =~= Seq::<(Seq<char>, Seq<NodeV>)>::empty());
        lemma_wf_group_nodes_push(k, Seq::empty(), n);
        reveal_with_fuel(wf_groups, 2);
        assert(u[0].1 =~= Seq::<NodeV>::empty().push(n));
    } else if gs[0].0 == k {
        lemma_wf_group_nodes_push(k, gs[0].1, n);
        assert(u.subrange(1, u.len() as int) =~= gs.subrange(1, gs.len() as int));
    } else {
        lemma_group_add_wf(gs.subrange(1, gs.len() as int), n);
        assert(u.subrange(1, u.len() as int) =~= group_add(gs.subrange(1, gs.len() as int), k, n));
    }
}

/// Law: an upsert is found under its own key. In particular, upserting `k`
/// twice leaves the second value in place, while the second upsert still sees
/// the first value: what [`Node::add_attribute`] returns and
/// [`Node::get_attribute`] then finds.
pub proof fn lemma_assoc_upsert_find<V>(s: Seq<(Seq<char>, V)>, k: Seq<char>, v: V)
    ensures
        assoc_find(assoc_upsert(s, k, v), k) == Some(v),
    decreases s.len(),
{
    let u = assoc_upsert(s, k, v);
    if s.len() == 0 || s[0].0 == k {
        reveal_with_fuel(assoc_find, 2);
    } else {
        lemma_assoc_upsert_find(s.subrange(1, s.len() as int), k, v);
        assert(u.subrange(1, u.len() as int) =~= assoc_upsert(
            s.subrange(1, s.len() as int),
            k,
            v,
        ));
    }
}

/// Law: an upsert leaves the lookup of every other key unchanged.
pub proof fn lemma_assoc_upsert_frame<V>(s: Seq<(Seq<char>, V)>, k: Seq<char>, v: V, k2: Seq<char>)
    requires
        k2 != k,
    ensures
        assoc_find(assoc_upsert(s, k, v), k2) == assoc_find(s, k2),
    decreases s.len(),
{
    let u = assoc_upsert(s, k, v);
    if s.len() == 0 {
        reveal_with_fuel(assoc_find, 2);
        assert(u.subrange(1, u.len() as int) =~= Seq::<(Seq<char>, V)>::empty());
    } else if s[0].0 == k {
        reveal_with_fuel(assoc_find, 2);
        assert(u.subrange(1, u.len() as int) =~= s.subrange(1, s.len() as int));
    } else {
        lemma_assoc_upsert_frame(s.subrange(1, s.len() as int), k, v, k2);
        assert(u.subrange(1, u.len() as int) =~= assoc_upsert(
            s.subrange(1, s.len() as int),
            k,
            v,
        ));
    }
}

/// One XML element.
///
/// `tag` is empty only for the sentinel "no root was present" value; the
/// parser and the constructors never give a real node an empty tag.
#[derive(Debug)]
pub struct Node {
    pub tag: String,
    pub attributes: Vec<(String, String)>,
    nodes: Vec<(String, Vec<Node>)>,
    pub content: String,
}

/// The mathematical image of an attribute list.
pub open spec fn attrs_view(a: Seq<(String, String)>) -> Seq<(Seq<char>, Seq<char>)> {
    a.map_values(|p: (String, String)| (p.0@, p.1@))
}

/// The mathematical image of one child-node list.
pub open spec fn group_nodes_view(ns: Seq<Node>) -> Seq<NodeV>
    decreases ns,
{
    if ns.len() == 0 {
        Seq::empty()
    } else {
        seq![node_view(ns[0])] + group_nodes_view(ns.subrange(1, ns.len() as int))
    }
}

/// The mathematical image of a child-group list.
pub open spec fn groups_view(gs: Seq<(String, Vec<Node>)>) -> Seq<(Seq<char>, Seq<NodeV>)>
    decreases gs,
{
    if gs.len() == 0 {
        Seq::empty()
    } else {
        seq![(gs[0].0@, group_nodes_view(gs[0].1@))] + groups_view(
            gs.subrange(1, gs.len() as int),
        )
    }
}

/// What [`group_nodes_view`] holds at each position.
pub proof fn lemma_group_nodes_view(ns: Seq<Node>)
    ensures
        group_nodes_view(ns).len() == ns.len(),
        forall|j: int|
            0 <= j < ns.len() ==> #[trigger] group_nodes_view(ns)[j] == node_view(ns[j]),
    decreases ns.len(),
{
    if ns.len() > 0 {
        lemma_group_nodes_view(ns.subrange(1, ns.len() as int));
    }
}

/// What [`groups_view`] holds at each position.
pub proof fn lemma_groups_view(gs: Seq<(String, Vec<Node>)>)
    ensures
        groups_view(gs).len() == gs.len(),
        forall|i: int|
            0 <= i < gs.len() ==> #[trigger] groups_view(gs)[i] == (
                gs[i].0@,
                group_nodes_view(gs[i].1@),
            ),
    decreases gs.len(),
{
    if gs.len() > 0 {
        lemma_groups_view(gs.subrange(1, gs.len() as int));
    }
}

/// The mathematical image of a whole tree.
pub closed spec fn node_view(n: Node) -> NodeV
    decreases n,
{
    NodeV {
        tag: n.tag@,
        attrs: attrs_view(n.attributes@),
        groups: groups_view(n.nodes@),
        content: n.content@,
    }
}

impl View for Node {
    type V = NodeV;

    open spec fn view(&self) -> NodeV {
        node_view(*self)
    }
}

/// Appending one node to a child-node list appends its image to the list's
/// image.
pub proof fn lemma_group_nodes_view_push(ns: Seq<Node>, n: Node)
    ensures
        group_nodes_view(ns.push(n)) == group_nodes_view(ns).push(node_view(n)),
{
    lemma_group_nodes_view(ns.push(n));
    lemma_group_nodes_view(ns);
    assert(group_nodes_view(ns.push(n)) =~= group_nodes_view(ns).push(node_view(n)));
}

/// Appends `node` to the group of `gs` keyed by the node's own tag, adding a
/// new group at the end when no group carries that tag yet: the executable
/// counterpart of [`group_add`], shared by [`Node::add_node`] and the parser.
pub(crate) fn push_group(gs: &mut Vec<(String, Vec<Node>)>, node: Node)
    ensures
        groups_view(final(gs)@) == group_add(groups_view(old(gs)@), node@.tag, node@),
{
    let ghost gv = groups_view(old(gs)@);
    let mut i: usize = 0;
    while i < gs.len()
        invariant
            i <= gs@.len(),
            gs@ == old(gs)@,
            gv == groups_view(gs@),
            forall|j: int| 0 <= j < i ==> #[trigger] gv[j].0 != node.tag@,
        decreases gs@.len() - i,
    {
        proof {
            lemma_groups_view(gs@);
        }
        if crate::text::str_eq(gs[i].0.as_str(), node.tag.as_str()) {
            proof {
                lemma_group_add_hit(gv, node.tag@, node_view(node), i as int);
            }
            let ghost nv = node_view(node);
            let (k, mut v) = gs.remove(i);
            let ghost mid = gs@;
            v.push(node);
            proof {
                lemma_group_nodes_view_push(old(gs)@[i as int].1@, node);
            }
            gs.insert(i, (k, v));
            proof {
                assert(gs@ =~= old(gs)@.update(i as int, (k, v)));
                lemma_groups_view(gs@);
                lemma_groups_view(old(gs)@);
                assert(groups_view(gs@) =~= gv.update(i as int, (gv[i as int].0, gv[
                    i as int].1.push(nv))));
            }
            return ;
        }
        i = i + 1;
    }
    proof {
        lemma_groups_view(gs@);
        lemma_group_add_miss(gv, node.tag@, node_view(node));
    }
    let ghost nv = node_view(node);
    let ghost before = gs@;
    let key = node.tag.clone();
    let mut v: Vec<Node> = Vec::new();
    v.push(node);
    proof {
        lemma_group_nodes_view(v@);
        assert(group_nodes_view(v@) =~= seq![nv]);
    }
    gs.push((key, v));
    proof {
        lemma_groups_view(gs@);
        lemma_groups_view(before);
        assert(groups_view(gs@) =~= groups_view(before).push((nv.tag, seq![nv])));
    }
}

/// Inserts or overwrites the entry for `key` in an attribute list: the
/// executable counterpart of [`assoc_upsert`], shared by
/// [`Node::add_attribute`] and the parser. Returns the former value when one
/// existed.
pub(crate) fn upsert_attr(attrs: &mut Vec<(String, String)>, key: &str, val: &str) -> (prev: Option<
    String,
>)
    ensures
        attrs_view(final(attrs)@) == assoc_upsert(attrs_view(old(attrs)@), key@, val@),
        match prev {
            Some(p) => assoc_find(attrs_view(old(attrs)@), key@) == Some(p@),
            None => assoc_find(attrs_view(old(attrs)@), key@) is None,
        },
{
    let ghost av = attrs_view(old(attrs)@);
    let mut i: usize = 0;
    while i < attrs.len()
        invariant
            i <= attrs@.len(),
            attrs@ == old(attrs)@,
            av == attrs_view(attrs@),
            forall|j: int| 0 <= j < i ==> #[trigger] av[j].0 != key@,
        decreases attrs@.len() - i,
    {
        let a = &attrs[i];
        if crate::text::str_eq(a.0.as_str(), key) {
            proof {
                lemma_assoc_find_hit(av, key@, i as int);
                lemma_assoc_upsert_hit(av, key@, val@, i as int);
            }
            let (_k, former) = attrs.remove(i);
            attrs.insert(i, (key.to_owned(), val.to_owned()));
            proof {
                assert(attrs@ =~= old(attrs)@.update(
                    i as int,
                    (attrs@[i as int].0, attrs@[i as int].1),
                ));
                assert(attrs_view(attrs@) =~= av.update(i as int, (key@, val@)));
            }
            return Some(former);
        }
        i = i + 1;
    }
    proof {
        lemma_assoc_find_miss(av, key@);
        lemma_assoc_upsert_miss(av, key@, val@);
    }
    attrs.push((key.to_owned(), val.to_owned()));
    proof {
        assert(attrs_view(attrs@) =~= av.push((key@, val@)));
    }
    None
}

/// Creates a new node with the given tag and text content and nothing else.
pub fn new(tag: &str, content: String) -> (n: Node)
    ensures
        n@ == (NodeV {
            tag: tag@,
            attrs: Seq::<(Seq<char>, Seq<char>)>::empty(),
            groups: Seq::<(Seq<char>, Seq<NodeV>)>::empty(),
            content: content@,
        }),
{
    let n = Node {
        tag: tag.to_owned(),
        attributes: Vec::new(),
        nodes: Vec::new(),
        content,
    };
    proof {
        assert(attrs_view(n.attributes@) =~= Seq::<(Seq<char>, Seq<char>)>::empty());
        assert(groups_view(n.nodes@) =~= Seq::<(Seq<char>, Seq<NodeV>)>::empty());
    }
    n
}

/// Creates a new node with the given tag, attributes, content and child
/// groups in one call. The lists are taken exactly as given: nothing checks
/// that their keys are unique or that each child carries its group's tag —
/// that invariant ([`wf_node`]) is guaranteed only for parsed trees and kept
/// by `add_attribute`/`add_node`.
pub fn new_filled(
    tag: &str,
    attributes: Vec<(String, String)>,
    content: String,
    nodes: Vec<(String, Vec<Node>)>,
) -> (n: Node)
    ensures
        n@ == (NodeV {
            tag: tag@,
            attrs: attrs_view(attributes@),
            groups: groups_view(nodes@),
            content: content@,
        }),
{
    Node { tag: tag.to_owned(), attributes, nodes, content }
}

impl Node {
    /// All child nodes bearing the given tag, or `None` when the node has no
    /// child with that tag.
    pub fn get_nodes(&self, tag: &str) -> (r: Option<&Vec<Node>>)
        ensures
            match r {
                Some(v) => assoc_find(self@.groups, tag@) == Some(group_nodes_view(v@)),
                None => assoc_find(self@.groups, tag@) is None,
            },
    {
        let ghost gv = self@.groups;
        let mut i: usize = 0;
        while i < self.nodes.len()
            invariant
                i <= self.nodes@.len(),
                gv == groups_view(self.nodes@),
                forall|j: int| 0 <= j < i ==> #[trigger] gv[j].0 != tag@,
            decreases self.nodes@.len() - i,
        {
            proof {
                lemma_groups_view(self.nodes@);
            }
            let g = &self.nodes[i];
            if crate::text::str_eq(g.0.as_str(), tag) {
                proof {
                    lemma_assoc_find_hit(gv, tag@, i as int);
                }
                return Some(&g.1);
            }
            i = i + 1;
        }
        proof {
            lemma_groups_view(self.nodes@);
            lemma_assoc_find_miss(gv, tag@);
        }
        None
    }

    /// The same lookup as [`Node::get_nodes`], but a miss is reported as a
    /// `TagNotFound` error carrying the parent tag and the requested tag.
    pub fn try_get_nodes(&self, tag: &str) -> (r: Result<&Vec<Node>, crate::Error>)
        ensures
            match r {
                Ok(v) => assoc_find(self@.groups, tag@) == Some(group_nodes_view(v@)),
                Err(e) => assoc_find(self@.groups, tag@) is None && (e matches
                crate::Error::TagNotFound(p, t) && p@ == self@.tag && t@ == tag@),
            },
    {
        match self.get_nodes(tag) {
            Some(v) => Ok(v),
            None => Err(crate::Error::TagNotFound(self.tag.clone(), tag.to_owned())),
        }
    }

    /// The attribute value under the given key, or `None` when the node has
    /// no attribute with that key.
    pub fn get_attribute(&self, key: &str) -> (r: Option<&String>)
        ensures
            match r {
                Some(v) => assoc_find(self@.attrs, key@) == Some(v@),
                None => assoc_find(self@.attrs, key@) is None,
            },
    {
        let ghost av = self@.attrs;
        let mut i: usize = 0;
        while i < self.attributes.len()
            invariant
                i <= self.attributes@.len(),
                av == attrs_view(self.attributes@),
                forall|j: int| 0 <= j < i ==> #[trigger] av[j].0 != key@,
            decreases self.attributes@.len() - i,
        {
            let a = &self.attributes[i];
            if crate::text::str_eq(a.0.as_str(), key) {
                proof {
                    lemma_assoc_find_hit(av, key@, i as int);
                }
                return Some(&a.1);
            }
            i = i + 1;
        }
        proof {
            lemma_assoc_find_miss(av, key@);
        }
        None
    }

    /// The same lookup as [`Node::get_attribute`], but a miss is reported as
    /// an `AttributeNotFound` error carrying the parent tag and the key.
    pub fn try_get_attribute(&self, key: &str) -> (r: Result<&String, crate::Error>)
        ensures
            match r {
                Ok(v) => assoc_find(self@.attrs, key@) == Some(v@),
                Err(e) => assoc_find(self@.attrs, key@) is None && (e matches
                crate::Error::AttributeNotFound(p, t) && p@ == self@.tag && t@ == key@),
            },
    {
        match self.get_attribute(key) {
            Some(v) => Ok(v),
            None => Err(crate::Error::AttributeNotFound(self.tag.clone(), key.to_owned())),
        }
    }

    /// Adds or updates an attribute in place; when an attribute with the key
    /// already exists, its former value is returned.
    pub fn add_attribute(&mut self, key: &str, val: &str) -> (prev: Option<String>)
        ensures
            final(self)@.attrs == assoc_upsert(old(self)@.attrs, key@, val@),
            final(self)@.tag == old(self)@.tag,
            final(self)@.groups == old(self)@.groups,
            final(self)@.content == old(self)@.content,
            match prev {
                Some(p) => assoc_find(old(self)@.attrs, key@) == Some(p@),
                None => assoc_find(old(self)@.attrs, key@) is None,
            },
    {
        upsert_attr(&mut self.attributes, key, val)
    }

    /// Appends `child` to the group keyed by the child's own tag, preserving
    /// insertion order within that group; the node takes ownership of the
    /// child.
    pub fn add_node(&mut self, node: Node)
        ensures
            final(self)@.groups == group_add(old(self)@.groups, node@.tag, node@),
            final(self)@.tag == old(self)@.tag,
            final(self)@.attrs == old(self)@.attrs,
            final(self)@.content == old(self)@.content,
    {
        push_group(&mut self.nodes, node);
    }

    /// Appends a new child with the given tag and text content: the same as
    /// `add_node(new(tag, content))`.
    pub fn add_new_node(&mut self, tag: &str, content: String)
        ensures
            final(self)@.groups == group_add(
                old(self)@.groups,
                tag@,
                (NodeV {
                    tag: tag@,
                    attrs: Seq::<(Seq<char>, Seq<char>)>::empty(),
                    groups: Seq::<(Seq<char>, Seq<NodeV>)>::empty(),
                    content: content@,
                }),
            ),
            final(self)@.tag == old(self)@.tag,
            final(self)@.attrs == old(self)@.attrs,
            final(self)@.content == old(self)@.content,
    {
        self.add_node(new(tag, content));
    }

    /// The child group for `tag` as a slice, empty when the node has no child
    /// with that tag: a convenience view over [`Node::get_nodes`] that never
    /// fails.
    pub fn index(&self, tag: &str) -> (r: &[Node])
        ensures
            match assoc_find(self@.groups, tag@) {
                Some(g) => group_nodes_view(r@) == g,
                None => r@.len() == 0,
            },
    {
        match self.get_nodes(tag) {
            Some(v) => v.as_slice(),
            None => {
                let r: &[Node] = &[];
                proof {
                    lemma_group_nodes_view(r@);
                }
                r
            },
        }
    }
}

/// The text of an attribute list as it is rendered: ` k="v"` for each entry,
/// in insertion order.
pub open spec fn render_attrs(attrs: Seq<(Seq<char>, Seq<char>)>) -> Seq<char>
    decreases attrs.len(),
{
    if attrs.len() == 0 {
        Seq::empty()
    } else {
        seq![' '] + attrs[0].0 + seq!['=', '"'] + attrs[0].1 + seq!['"'] + render_attrs(
            attrs.subrange(1, attrs.len() as int),
        )
    }
}

/// The compact text of a node: `<tag attrs/>` when it has no children and no
/// content, else `<tag attrs>` + children + content + `</tag>`; the sentinel
/// empty-tag node renders as nothing.
pub open spec fn render_node(n: NodeV) -> Seq<char>
    decreases n,
{
    if n.tag.len() == 0 {
        Seq::empty()
    } else if n.groups.len() == 0 && n.content.len() == 0 {
        seq!['<'] + n.tag + render_attrs(n.attrs) + seq!['/', '>']
    } else {
        seq!['<'] + n.tag + render_attrs(n.attrs) + seq!['>'] + render_groups(n.groups)
            + n.content + seq!['<', '/'] + n.tag + seq!['>']
    }
}

/// The compact text of the child groups, group by group in insertion order.
pub open spec fn render_groups(gs: Seq<(Seq<char>, Seq<NodeV>)>) -> Seq<char>
    decreases gs,
{
    if gs.len() == 0 {
        Seq::empty()
    } else {
        render_nodes(gs[0].1) + render_groups(gs.subrange(1, gs.len() as int))
    }
}

/// The compact text of one child-node list, in order.
pub open spec fn render_nodes(ns: Seq<NodeV>) -> Seq<char>
    decreases ns,
{
    if ns.len() == 0 {
        Seq::empty()
    } else {
        render_node(ns[0]) + render_nodes(ns.subrange(1, ns.len() as int))
    }
}

/// Law: a node with no child groups and empty content renders as a
/// self-closing tag, in both the compact and the indented form (there on its
/// own line).
pub proof fn lemma_render_self_closing(n: NodeV, depth: nat)
    requires
        n.tag.len() > 0,
        n.groups.len() == 0,
        n.content.len() == 0,
    ensures
        render_node(n) == seq!['<'] + n.tag + render_attrs(n.attrs) + seq!['/', '>'],
        render_node_pretty(n, depth) == indent(depth) + seq!['<'] + n.tag + render_attrs(n.attrs)
            + seq!['/', '>', '\n'],
{
}

/// Four spaces for each level of depth.
pub open spec fn indent(depth: nat) -> Seq<char> {
    Seq::new(4 * depth, |i: int| ' ')
}

/// The indented text of a node, one node per line: as [`render_node`], but
/// with the line indented by `depth` levels, a newline after the node, and,
/// when the node has child groups, the children on lines of their own.
pub open spec fn render_node_pretty(n: NodeV, depth: nat) -> Seq<char>
    decreases n,
{
    if n.tag.len() == 0 {
        Seq::empty()
    } else if n.groups.len() == 0 && n.content.len() == 0 {
        indent(depth) + seq!['<'] + n.tag + render_attrs(n.attrs) + seq!['/', '>', '\n']
    } else {
        indent(depth) + seq!['<'] + n.tag + render_attrs(n.attrs) + seq!['>'] + (if n.groups.len()
            > 0 {
            seq!['\n']
        } else {
            Seq::empty()
        }) + render_groups_pretty(n.groups, depth + 1) + n.content + (if n.groups.len() > 0 {
            indent(depth)
        } else {
            Seq::empty()
        }) + seq!['<', '/'] + n.tag + seq!['>', '\n']
    }
}

/// The indented text of the child groups, group by group in insertion order.
pub open spec fn render_groups_pretty(gs: Seq<(Seq<char>, Seq<NodeV>)>, depth: nat) -> Seq<char>
    decreases gs,
{
    if gs.len() == 0 {
        Seq::empty()
    } else {
        render_nodes_pretty(gs[0].1, depth) + render_groups_pretty(
            gs.subrange(1, gs.len() as int),
            depth,
        )
    }
}

/// The indented text of one child-node list, in order.
pub open spec fn render_nodes_pretty(ns: Seq<NodeV>, depth: nat) -> Seq<char>
    decreases ns,
{
    if ns.len() == 0 {
        Seq::empty()
    } else {
        render_node_pretty(ns[0], depth) + render_nodes_pretty(
            ns.subrange(1, ns.len() as int),
            depth,
        )
    }
}

/// Writes ` k="v"` for each attribute, in insertion order, onto `out`.
fn format_attrs(attrs: &Vec<(String, String)>, out: &mut String)
    ensures
        final(out)@ == old(out)@ + render_attrs(attrs_view(attrs@)),
{
    let ghost av = attrs_view(attrs@);
    let mut i: usize = 0;
    proof {
        assert(av.subrange(0, av.len() as int) =~= av);
    }
    while i < attrs.len()
        invariant
            i <= attrs@.len(),
            av == attrs_view(attrs@),
            out@ + render_attrs(av.subrange(i as int, av.len() as int)) == old(out)@
                + render_attrs(av),
        decreases attrs@.len() - i,
    {
        let ghost out_before = out@;
        let a = &attrs[i];
        out.append(" ");
        out.append(a.0.as_str());
        out.append("=\"");
        out.append(a.1.as_str());
        out.append("\"");
        proof {
            reveal_strlit(" ");
            reveal_strlit("=\"");
            reveal_strlit("\"");
            let tail = av.subrange(i as int, av.len() as int);
            assert(tail.subrange(1, tail.len() as int) =~= av.subrange(
                i + 1int,
                av.len() as int,
            ));
            assert(out@ =~= out_before + seq![' '] + av[i as int].0 + seq!['=', '"'] + av[
                i as int].1 + seq!['"']);
            assert(out@ + render_attrs(av.subrange(i + 1int, av.len() as int)) =~= out_before
                + render_attrs(tail));
        }
        i = i + 1;
    }
    proof {
        assert(render_attrs(av.subrange(av.len() as int, av.len() as int)) =~= Seq::<
            char,
        >::empty());
        assert(out@ + Seq::<char>::empty() =~= out@);
    }
}

/// Writes the compact text of a node onto `out`.
fn write_node(n: &Node, out: &mut String)
    ensures
        final(out)@ == old(out)@ + render_node(n@),
    decreases *n,
{
    if n.tag.as_str().is_empty() {
        proof {
            assert(old(out)@ + render_node(n@) =~= out@);
        }
        return ;
    }
    let ghost out0 = out@;
    if n.nodes.len() == 0 && n.content.as_str().is_empty() {
        out.append("<");
        out.append(n.tag.as_str());
        format_attrs(&n.attributes, out);
        out.append("/>");
        proof {
            reveal_strlit("<");
            reveal_strlit("/>");
            assert(n@.content =~= Seq::<char>::empty());
            lemma_groups_view(n.nodes@);
            assert(out@ =~= out0 + render_node(n@));
        }
    } else {
        out.append("<");
        out.append(n.tag.as_str());
        format_attrs(&n.attributes, out);
        out.append(">");
        write_groups(&n.nodes, out);
        out.append(n.content.as_str());
        out.append("</");
        out.append(n.tag.as_str());
        out.append(">");
        proof {
            reveal_strlit("<");
            reveal_strlit(">");
            reveal_strlit("</");
            lemma_groups_view(n.nodes@);
            assert(out@ =~= out0 + render_node(n@));
        }
    }
}

/// Writes the compact text of all child groups onto `out`.
fn write_groups(gs: &Vec<(String, Vec<Node>)>, out: &mut String)
    ensures
        final(out)@ == old(out)@ + render_groups(groups_view(gs@)),
    decreases *gs,
{
    let ghost gv = groups_view(gs@);
    let mut i: usize = 0;
    proof {
        lemma_groups_view(gs@);
        assert(gv.subrange(0, gv.len() as int) =~= gv);
    }
    while i < gs.len()
        invariant
            i <= gs@.len(),
            gv == groups_view(gs@),
            gv.len() == gs@.len(),
            out@ + render_groups(gv.subrange(i as int, gv.len() as int)) == old(out)@
                + render_groups(gv),
        decreases gs@.len() - i,
    {
        let ghost nv = gv[i as int].1;
        let mut j: usize = 0;
        proof {
            lemma_groups_view(gs@);
            lemma_group_nodes_view(gs@[i as int].1@);
            let tail = gv.subrange(i as int, gv.len() as int);
            assert(tail.subrange(1, tail.len() as int) =~= gv.subrange(i + 1int, gv.len() as int));
            assert(render_groups(tail) =~= render_nodes(nv) + render_groups(
                gv.subrange(i + 1int, gv.len() as int),
            ));
            assert(nv.subrange(0, nv.len() as int) =~= nv);
            assert(out@ + render_nodes(nv) + render_groups(gv.subrange(i + 1int, gv.len() as int))
                =~= out@ + render_groups(tail));
        }
        while j < gs[i].1.len()
            invariant
                i < gs@.len(),
                j <= gs@[i as int].1@.len(),
                gv == groups_view(gs@),
                gv.len() == gs@.len(),
                nv == gv[i as int].1,
                nv == group_nodes_view(gs@[i as int].1@),
                nv.len() == gs@[i as int].1@.len(),
                forall|k: int|
                    0 <= k < nv.len() ==> #[trigger] nv[k] == node_view(gs@[i as int].1@[k]),
                out@ + render_nodes(nv.subrange(j as int, nv.len() as int)) + render_groups(
                    gv.subrange(i + 1int, gv.len() as int),
                ) == old(out)@ + render_groups(gv),
            decreases gs@[i as int].1@.len() - j,
        {
            let ghost out_before = out@;
            let g = &gs[i];
            write_node(&g.1[j], out);
            proof {
                let tail = nv.subrange(j as int, nv.len() as int);
                assert(tail.subrange(1, tail.len() as int) =~= nv.subrange(
                    j + 1int,
                    nv.len() as int,
                ));
                assert(render_nodes(tail) =~= render_node(nv[j as int]) + render_nodes(
                    nv.subrange(j + 1int, nv.len() as int),
                ));
                assert(out@ + render_nodes(nv.subrange(j + 1int, nv.len() as int)) =~= out_before
                    + render_nodes(tail));
            }
            j = j + 1;
        }
        proof {
            assert(render_nodes(nv.subrange(nv.len() as int, nv.len() as int)) =~= Seq::<
                char,
            >::empty());
            assert(out@ + Seq::<char>::empty() =~= out@);
        }
        i = i + 1;
    }
    proof {
        assert(render_groups(gv.subrange(gv.len() as int, gv.len() as int)) =~= Seq::<
            char,
        >::empty());
        assert(out@ + Seq::<char>::empty() =~= out@);
    }
}

impl Node {
    /// The compact text of the tree rooted at this node: no whitespace is
    /// added between elements. No character is escaped or unescaped: content
    /// and attribute values are emitted verbatim.
    pub fn to_string(&self) -> (r: String)
        ensures
            r@ == render_node(self@),
    {
        let mut out = String::new();
        write_node(self, &mut out);
        proof {
            assert(Seq::<char>::empty() + render_node(self@) =~= render_node(self@));
        }
        out
    }

    /// The indented text of the tree rooted at this node: one node per line,
    /// four spaces of indentation per level of depth. As with
    /// [`Node::to_string`], nothing is escaped.
    pub fn to_string_pretty(&self) -> (r: String)
        ensures
            r@ == render_node_pretty(self@, 0),
    {
        let ind = String::new();
        let mut out = String::new();
        proof {
            assert(ind@ =~= indent(0));
            assert(Seq::<char>::empty() + render_node_pretty(self@, 0) =~= render_node_pretty(
                self@,
                0,
            ));
        }
        write_node_pretty(self, &ind, Ghost(0), &mut out);
        out
    }
}

/// Writes the indented text of a node onto `out`; `ind` holds the `depth`
/// levels of indentation as text.
fn write_node_pretty(n: &Node, ind: &String, Ghost(depth): Ghost<nat>, out: &mut String)
    requires
        ind@ == indent(depth),
    ensures
        final(out)@ == old(out)@ + render_node_pretty(n@, depth),
    decreases *n,
{
    if n.tag.as_str().is_empty() {
        proof {
            assert(old(out)@ + render_node_pretty(n@, depth) =~= out@);
        }
        return ;
    }
    let ghost out0 = out@;
    if n.nodes.len() == 0 && n.content.as_str().is_empty() {
        out.append(ind.as_str());
        out.append("<");
        out.append(n.tag.as_str());
        format_attrs(&n.attributes, out);
        out.append("/>\n");
        proof {
            reveal_strlit("<");
            reveal_strlit("/>\n");
            assert(n@.content =~= Seq::<char>::empty());
            lemma_groups_view(n.nodes@);
            assert(out@ =~= out0 + render_node_pretty(n@, depth));
        }
    } else {
        let has_groups = n.nodes.len() > 0;
        out.append(ind.as_str());
        out.append("<");
        out.append(n.tag.as_str());
        format_attrs(&n.attributes, out);
        out.append(">");
        if has_groups {
            out.append("\n");
        }
        let mut deeper = ind.clone();
        deeper.append("    ");
        proof {
            reveal_strlit("    ");
            assert(deeper@ =~= indent(depth + 1));
        }
        write_groups_pretty(&n.nodes, &deeper, Ghost(depth + 1), out);
        out.append(n.content.as_str());
        if has_groups {
            out.append(ind.as_str());
        }
        out.append("</");
        out.append(n.tag.as_str());
        out.append(">\n");
        proof {
            reveal_strlit("<");
            reveal_strlit(">");
            reveal_strlit("\n");
            reveal_strlit("</");
            reveal_strlit(">\n");
            lemma_groups_view(n.nodes@);
            assert(out@ =~= out0 + render_node_pretty(n@, depth));
        }
    }
}

/// Writes the indented text of all child groups onto `out`.
fn write_groups_pretty(
    gs: &Vec<(String, Vec<Node>)>,
    ind: &String,
    Ghost(depth): Ghost<nat>,
    out: &mut String,
)
    requires
        ind@ == indent(depth),
    ensures
        final(out)@ == old(out)@ + render_groups_pretty(groups_view(gs@), depth),
    decreases *gs,
{
    let ghost gv = groups_view(gs@);
    let mut i: usize = 0;
    proof {
        lemma_groups_view(gs@);
        assert(gv.subrange(0, gv.len() as int) =~= gv);
    }
    while i < gs.len()
        invariant
            i <= gs@.len(),
            ind@ == indent(depth),
            gv == groups_view(gs@),
            gv.len() == gs@.len(),
            out@ + render_groups_pretty(gv.subrange(i as int, gv.len() as int), depth) == old(
                out,
            )@ + render_groups_pretty(gv, depth),
        decreases gs@.len() - i,
    {
        let ghost nv = gv[i as int].1;
        let mut j: usize = 0;
        proof {
            lemma_groups_view(gs@);
            lemma_group_nodes_view(gs@[i as int].1@);
            let tail = gv.subrange(i as int, gv.len() as int);
            assert(tail.subrange(1, tail.len() as int) =~= gv.subrange(i + 1int, gv.len() as int));
            assert(render_groups_pretty(tail, depth) =~= render_nodes_pretty(nv, depth)
                + render_groups_pretty(gv.subrange(i + 1int, gv.len() as int), depth));
            assert(nv.subrange(0, nv.len() as int) =~= nv);
            assert(out@ + render_nodes_pretty(nv, depth) + render_groups_pretty(
                gv.subrange(i + 1int, gv.len() as int),
                depth,
            ) =~= out@ + render_groups_pretty(tail, depth));
        }
        while j < gs[i].1.len()
            invariant
                i < gs@.len(),
                j <= gs@[i as int].1@.len(),
                ind@ == indent(depth),
                gv == groups_view(gs@),
                gv.len() == gs@.len(),
                nv == gv[i as int].1,
                nv == group_nodes_view(gs@[i as int].1@),
                nv.len() == gs@[i as int].1@.len(),
                forall|k: int|
                    0 <= k < nv.len() ==> #[trigger] nv[k] == node_view(gs@[i as int].1@[k]),
                out@ + render_nodes_pretty(nv.subrange(j as int, nv.len() as int), depth)
                    + render_groups_pretty(gv.subrange(i + 1int, gv.len() as int), depth) == old(
                    out,
                )@ + render_groups_pretty(gv, depth),
            decreases gs@[i as int].1@.len() - j,
        {
            let ghost out_before = out@;
            let g = &gs[i];
            write_node_pretty(&g.1[j], ind, Ghost(depth), out);
            proof {
                let tail = nv.subrange(j as int, nv.len() as int);
                assert(tail.subrange(1, tail.len() as int) =~= nv.subrange(
                    j + 1int,
                    nv.len() as int,
                ));
                assert(render_nodes_pretty(tail, depth) =~= render_node_pretty(nv[j as int], depth)
                    + render_nodes_pretty(nv.subrange(j + 1int, nv.len() as int), depth));
                assert(out@ + render_nodes_pretty(nv.subrange(j + 1int, nv.len() as int), depth)
                    =~= out_before + render_nodes_pretty(tail, depth));
            }
            j = j + 1;
        }
        proof {
            assert(render_nodes_pretty(nv.subrange(nv.len() as int, nv.len() as int), depth)
                =~= Seq::<char>::empty());
            assert(out@ + Seq::<char>::empty() =~= out@);
        }
        i = i + 1;
    }
    proof {
        assert(render_groups_pretty(gv.subrange(gv.len() as int, gv.len() as int), depth) =~= Seq::<
            char,
        >::empty());
        assert(out@ + Seq::<char>::empty() =~= out@);
    }
}

} // verus!
