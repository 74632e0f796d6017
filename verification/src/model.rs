//! The document tree: scalar, sequence and map nodes, each carrying the
//! source position it was read at, together with the mathematical view of a
//! tree and its well-formedness (every mapping has pairwise distinct keys).

use vstd::prelude::*;

verus! {

broadcast use vstd::seq::group_seq_axioms;

/// Source position of an event: byte index, line and column, taken verbatim
/// from the event source's marker.
#[derive(Debug, Clone, Copy, PartialEq, Eq, Hash, Structural)]
pub struct Pos {
    pub index: usize,
    pub line: usize,
    pub col: usize,
}

/// Quoting style of a scalar, as far as this subset distinguishes them.
#[derive(Debug, Clone, Copy, PartialEq, Eq, Hash, Structural)]
pub enum ScalarStyle {
    Plain,
    SingleQuoted,
    DoubleQuoted,
    Literal,
    Folded,
}

/// A scalar value with its position and quoting style.
#[derive(Debug)]
pub struct ScalarNode {
    pub value: String,
    pub pos: Pos,
    pub scalar_style: ScalarStyle,
}

/// A parsed document: exactly one node, owning its whole subtree.
#[derive(Debug)]
pub enum Node {
    Scalar(ScalarNode),
    Mapping(MapNode),
    Sequence(SequenceNode),
}

/// A mapping: entries in insertion order, keyed by scalar nodes. Two entries
/// never share a key text; the builder rejects a duplicate before inserting.
#[derive(Debug)]
pub struct MapNode {
    pub value: Vec<(ScalarNode, Node)>,
    pub pos: Pos,
}

/// A sequence: items in exactly the order they were encountered.
#[derive(Debug)]
pub struct SequenceNode {
    pub value: Vec<Node>,
    pub pos: Pos,
}

/// Mathematical view of a scalar node.
pub ghost struct ScalarV {
    pub value: Seq<char>,
    pub pos: Pos,
    pub style: ScalarStyle,
}

/// Mathematical view of a tree.
pub ghost enum NodeV {
    Scalar(ScalarV),
    Mapping(Seq<(ScalarV, NodeV)>, Pos),
    Sequence(Seq<NodeV>, Pos),
}

impl View for ScalarNode {
    type V = ScalarV;

    open spec fn view(&self) -> ScalarV {
        ScalarV { value: self.value@, pos: self.pos, style: self.scalar_style }
    }
}

/// View of one tree node.
pub open spec fn node_view(n: Node) -> NodeV
    decreases n,
    via node_view_dec
{
    match n {
        Node::Scalar(s) => NodeV::Scalar(s@),
        Node::Mapping(m) => NodeV::Mapping(entries_view(m.value@), m.pos),
        Node::Sequence(s) => NodeV::Sequence(nodes_view(s.value@), s.pos),
    }
}

#[via_fn]
proof fn node_view_dec(n: Node) {
    broadcast use vstd::std_specs::vec::group_vec_axioms;

    match n {
        Node::Scalar(_) => {
        },
        Node::Mapping(m) => {
            assert(decreases_to!(n => m.value@));
        },
        Node::Sequence(s) => {
            assert(decreases_to!(n => s.value@));
        },
    }
}

/// View of a run of map entries, entry by entry.
pub open spec fn entries_view(es: Seq<(ScalarNode, Node)>) -> Seq<(ScalarV, NodeV)>
    decreases es,
    via entries_view_dec
{
    if es.len() == 0 {
        Seq::empty()
    } else {
        entries_view(es.subrange(0, es.len() - 1)).push(
            (es[es.len() - 1].0@, node_view(es[es.len() - 1].1)),
        )
    }
}

#[via_fn]
proof fn entries_view_dec(es: Seq<(ScalarNode, Node)>) {
    if es.len() > 0 {
        assert(decreases_to!(es => es.subrange(0, es.len() - 1)));
        assert(decreases_to!(es => es[es.len() - 1].1));
    }
}

/// View of a run of sequence items, item by item.
pub open spec fn nodes_view(ns: Seq<Node>) -> Seq<NodeV>
    decreases ns,
    via nodes_view_dec
{
    if ns.len() == 0 {
        Seq::empty()
    } else {
        nodes_view(ns.subrange(0, ns.len() - 1)).push(node_view(ns[ns.len() - 1]))
    }
}

#[via_fn]
proof fn nodes_view_dec(ns: Seq<Node>) {
    if ns.len() > 0 {
        assert(decreases_to!(ns => ns.subrange(0, ns.len() - 1)));
        assert(decreases_to!(ns => ns[ns.len() - 1]));
    }
}

impl View for Node {
    type V = NodeV;

    open spec fn view(&self) -> NodeV {
        node_view(*self)
    }
}

/// The length of a run of entries is kept by its view.
pub proof fn lemma_entries_view_len(es: Seq<(ScalarNode, Node)>)
    ensures
        entries_view(es).len() == es.len(),
        forall|i: int|
            0 <= i < es.len() ==> #[trigger] entries_view(es)[i] == (es[i].0@, node_view(
                es[i].1,
            )),
    decreases es,
{
    if es.len() > 0 {
        lemma_entries_view_len(es.subrange(0, es.len() - 1));
        assert forall|i: int| 0 <= i < es.len() implies #[trigger] entries_view(es)[i] == (
            es[i].0@,
            node_view(es[i].1),
        ) by {
            if i < es.len() - 1 {
                assert(es.subrange(0, es.len() - 1)[i] == es[i]);
            }
        }
    }
}

/// The length of a run of items is kept by its view.
pub proof fn lemma_nodes_view_len(ns: Seq<Node>)
    ensures
        nodes_view(ns).len() == ns.len(),
        forall|i: int| 0 <= i < ns.len() ==> #[trigger] nodes_view(ns)[i] == node_view(ns[i]),
    decreases ns,
{
    if ns.len() > 0 {
        lemma_nodes_view_len(ns.subrange(0, ns.len() - 1));
        assert forall|i: int| 0 <= i < ns.len() implies #[trigger] nodes_view(ns)[i] == node_view(
            ns[i],
        ) by {
            if i < ns.len() - 1 {
                assert(ns.subrange(0, ns.len() - 1)[i] == ns[i]);
            }
        }
    }
}

/// Whether some entry of `es` already uses the key text `key`.
pub open spec fn map_v_has_key(es: Seq<(ScalarV, NodeV)>, key: Seq<char>) -> bool {
    exists|i: int| 0 <= i < es.len() && es[i].0.value == key
}

/// Pairwise distinct key texts.
pub open spec fn map_v_unique_keys(es: Seq<(ScalarV, NodeV)>) -> bool {
    forall|i: int, j: int|
        0 <= i < j < es.len() ==> (#[trigger] es[i]).0.value != (#[trigger] es[j]).0.value
}

/// Well-formed map entries: unique keys and well-formed values.
pub open spec fn entries_wf(es: Seq<(ScalarV, NodeV)>) -> bool
    decreases es,
{
    map_v_unique_keys(es) && forall|i: int|
        0 <= i < es.len() ==> node_v_wf((#[trigger] es[i]).1)
}

/// The hard invariant of every tree this library hands out: each mapping in
/// it, at any depth, has pairwise distinct keys.
pub open spec fn node_v_wf(n: NodeV) -> bool
    decreases n,
{
    match n {
        NodeV::Scalar(_) => true,
        NodeV::Mapping(es, _) => entries_wf(es),
        NodeV::Sequence(items, _) => forall|i: int|
            0 <= i < items.len() ==> node_v_wf(#[trigger] items[i]),
    }
}

/// Depth of a tree: scalars have depth zero, a container is one deeper than
/// its deepest child.
pub open spec fn node_v_depth(n: NodeV) -> nat
    decreases n, 0nat,
{
    match n {
        NodeV::Scalar(_) => 0,
        NodeV::Mapping(es, _) => 1 + entries_max_depth(es, es.len()),
        NodeV::Sequence(items, _) => 1 + items_max_depth(items, items.len()),
    }
}

/// Greatest depth among the first `k` items.
pub open spec fn items_max_depth(items: Seq<NodeV>, k: nat) -> nat
    decreases items, k,
{
    if k == 0 || k > items.len() {
        0
    } else {
        let d = node_v_depth(items[k - 1]);
        let rest = items_max_depth(items, (k - 1) as nat);
        if d >= rest {
            d
        } else {
            rest
        }
    }
}

/// Greatest depth among the values of the first `k` entries.
pub open spec fn entries_max_depth(es: Seq<(ScalarV, NodeV)>, k: nat) -> nat
    decreases es, k,
{
    if k == 0 || k > es.len() {
        0
    } else {
        let d = node_v_depth(es[k - 1].1);
        let rest = entries_max_depth(es, (k - 1) as nat);
        if d >= rest {
            d
        } else {
            rest
        }
    }
}

/// Appending an entry appends its view.
pub proof fn lemma_entries_view_push(es: Seq<(ScalarNode, Node)>, p: (ScalarNode, Node))
    ensures
        entries_view(es.push(p)) == entries_view(es).push((p.0@, p.1@)),
{
    assert(es.push(p).subrange(0, es.len() as int) =~= es);
    assert(es.push(p)[es.len() as int] == p);
}

/// Appending an item appends its view.
pub proof fn lemma_nodes_view_push(ns: Seq<Node>, n: Node)
    ensures
        nodes_view(ns.push(n)) == nodes_view(ns).push(n@),
{
    assert(ns.push(n).subrange(0, ns.len() as int) =~= ns);
    assert(ns.push(n)[ns.len() as int] == n);
}

/// Whether some entry of `entries` already uses the key text of `key`.
pub fn entries_has_key(entries: &Vec<(ScalarNode, Node)>, key: &String) -> (r: bool)
    ensures
        r == map_v_has_key(entries_view(entries@), key@),
{
    proof {
        lemma_entries_view_len(entries@);
    }
    let n = entries.len();
    let mut i: usize = 0;
    while i < n
        invariant
            n == entries@.len(),
            i <= n,
            entries_view(entries@).len() == entries@.len(),
            forall|j: int|
                0 <= j < entries@.len() ==> #[trigger] entries_view(entries@)[j] == (
                    entries@[j].0@,
                    node_view(entries@[j].1),
                ),
            forall|j: int| 0 <= j < i ==> entries_view(entries@)[j].0.value != key@,
        decreases n - i,
    {
        if entries[i].0.value == *key {
            assert(entries_view(entries@)[i as int].0.value == key@);
            return true;
        }
        i += 1;
    }
    false
}

impl MapNode {
    /// Membership query over the entry keys' text.
    pub fn contains_key(&self, key: &str) -> (r: bool)
        ensures
            r == map_v_has_key(entries_view(self.value@), key@),
    {
        let owned: String = key.to_owned();
        entries_has_key(&self.value, &owned)
    }
}

} // verus!
