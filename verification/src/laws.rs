//! Laws of the builder, proved over the transition table: running many
//! events is folding `step`, an error absorbs every later event, scalars
//! keep their order, and nested single-item sequences build a tree whose
//! depth is exactly the nesting depth.

use vstd::prelude::*;

use crate::event::EventV;
use crate::event::LexicalStyle;
use crate::event::style_of_lexical;
use crate::model::NodeV;
use crate::model::Pos;
use crate::model::ScalarV;
use crate::model::items_max_depth;
use crate::model::node_v_depth;
use crate::loader::StateV;
use crate::loader::step;

verus! {

broadcast use vstd::seq::group_seq_axioms;

/// Running a sequence of events: one `step` per event, in order.
pub open spec fn run(stack: Seq<StateV>, evs: Seq<(EventV, Pos)>) -> Seq<StateV>
    decreases evs.len(),
{
    if evs.len() == 0 {
        stack
    } else {
        run(step(stack, evs[0].0, evs[0].1), evs.drop_first())
    }
}

/// Running two batches of events one after the other is running their
/// concatenation.
pub proof fn lemma_run_append(stack: Seq<StateV>, a: Seq<(EventV, Pos)>, b: Seq<(EventV, Pos)>)
    ensures
        run(stack, a + b) == run(run(stack, a), b),
    decreases a.len(),
{
    if a.len() == 0 {
        assert(a + b =~= b);
    } else {
        assert((a + b)[0] == a[0]);
        assert((a + b).drop_first() =~= a.drop_first() + b);
        lemma_run_append(step(stack, a[0].0, a[0].1), a.drop_first(), b);
    }
}

/// Once an error context is on top, every later event leaves the stack
/// unchanged, so the recorded error and the retrieved result never change.
pub proof fn lemma_error_is_sticky(stack: Seq<StateV>, evs: Seq<(EventV, Pos)>)
    requires
        stack.len() >= 1,
        stack.last() is Error,
    ensures
        run(stack, evs) == stack,
    decreases evs.len(),
{
    if evs.len() > 0 {
        assert(step(stack, evs[0].0, evs[0].1) == stack);
        lemma_error_is_sticky(stack, evs.drop_first());
    }
}

/// The scalar events for a run of values, each with its style and position.
pub open spec fn scalar_events(vals: Seq<(Seq<char>, LexicalStyle, Pos)>) -> Seq<(EventV, Pos)> {
    Seq::new(
        vals.len(),
        |i: int| (EventV::Scalar(vals[i].0, vals[i].1, 0, false), vals[i].2),
    )
}

/// The scalar nodes those events build.
pub open spec fn scalar_nodes(vals: Seq<(Seq<char>, LexicalStyle, Pos)>) -> Seq<NodeV> {
    Seq::new(
        vals.len(),
        |i: int|
            NodeV::Scalar(
                ScalarV { value: vals[i].0, pos: vals[i].2, style: style_of_lexical(vals[i].1) },
            ),
    )
}

/// Order preservation: feeding scalars into an open sequence appends their
/// nodes in exactly the order fed, after whatever was already there.
pub proof fn lemma_sequence_preserves_order(
    stack: Seq<StateV>,
    vals: Seq<(Seq<char>, LexicalStyle, Pos)>,
)
    requires
        stack.len() >= 1,
        stack.last() is SequenceWaitForValue,
    ensures
        run(stack, scalar_events(vals)) == stack.drop_last().push(
            StateV::SequenceWaitForValue(
                stack.last()->SequenceWaitForValue_0 + scalar_nodes(vals),
            ),
        ),
    decreases vals.len(),
{
    let items = stack.last()->SequenceWaitForValue_0;
    if vals.len() == 0 {
        assert(items + scalar_nodes(vals) =~= items);
        assert(stack.drop_last().push(stack.last()) =~= stack);
    } else {
        let sv = ScalarV {
            value: vals[0].0,
            pos: vals[0].2,
            style: style_of_lexical(vals[0].1),
        };
        let stack2 = stack.drop_last().push(
            StateV::SequenceWaitForValue(items.push(NodeV::Scalar(sv))),
        );
        assert(step(stack, scalar_events(vals)[0].0, scalar_events(vals)[0].1) == stack2);
        assert(scalar_events(vals).drop_first() =~= scalar_events(vals.drop_first()));
        lemma_sequence_preserves_order(stack2, vals.drop_first());
        assert(stack2.drop_last() =~= stack.drop_last());
        assert(items.push(NodeV::Scalar(sv)) + scalar_nodes(vals.drop_first()) =~= items
            + scalar_nodes(vals));
    }
}

/// `k` nested single-item sequences around `inner`, every one at `p`.
pub open spec fn singleton_chain(k: nat, inner: NodeV, p: Pos) -> NodeV
    decreases k,
{
    if k == 0 {
        inner
    } else {
        NodeV::Sequence(seq![singleton_chain((k - 1) as nat, inner, p)], p)
    }
}

/// `k` sequence starts, all unanchored, at `p`.
pub open spec fn opens(k: nat, p: Pos) -> Seq<(EventV, Pos)> {
    Seq::new(k, |i: int| (EventV::SequenceStart(0), p))
}

/// `k` sequence ends at `p`.
pub open spec fn closes(k: nat, p: Pos) -> Seq<(EventV, Pos)> {
    Seq::new(k, |i: int| (EventV::SequenceEnd, p))
}

/// `k` freshly opened sequence contexts.
pub open spec fn fresh_sequences(k: nat) -> Seq<StateV> {
    Seq::new(k, |i: int| StateV::SequenceWaitForValue(Seq::empty()))
}

/// Opening `k` sequences pushes `k` fresh contexts: the stack grows by one
/// context per nesting level and by nothing else.
pub proof fn lemma_run_opens(stack: Seq<StateV>, k: nat, p: Pos)
    requires
        stack.len() >= 1,
        stack.last() is DocumentStarted || stack.last() is SequenceWaitForValue,
    ensures
        run(stack, opens(k, p)) == stack + fresh_sequences(k),
    decreases k,
{
    if k == 0 {
        assert(stack + fresh_sequences(0) =~= stack);
    } else {
        let stack2 = stack.push(StateV::SequenceWaitForValue(Seq::empty()));
        assert(step(stack, opens(k, p)[0].0, opens(k, p)[0].1) == stack2);
        assert(opens(k, p).drop_first() =~= opens((k - 1) as nat, p));
        lemma_run_opens(stack2, (k - 1) as nat, p);
        assert(stack2 + fresh_sequences((k - 1) as nat) =~= stack + fresh_sequences(k));
    }
}

/// Wrapping one sequence more, one nesting deeper.
proof fn lemma_chain_wrap(m: nat, c: NodeV, p: Pos)
    ensures
        singleton_chain(m, NodeV::Sequence(seq![c], p), p) == singleton_chain(m + 1, c, p),
    decreases m,
{
    if m == 0 {
        assert(singleton_chain(0, c, p) == c);
        assert(singleton_chain(0, NodeV::Sequence(seq![c], p), p) == NodeV::Sequence(seq![c], p));
        assert(singleton_chain(1, c, p) == NodeV::Sequence(seq![singleton_chain(0, c, p)], p));
    } else {
        lemma_chain_wrap((m - 1) as nat, c, p);
        assert(singleton_chain(m, NodeV::Sequence(seq![c], p), p) == NodeV::Sequence(
            seq![singleton_chain((m - 1) as nat, NodeV::Sequence(seq![c], p), p)],
            p,
        ));
        assert(singleton_chain(m + 1, c, p) == NodeV::Sequence(
            seq![singleton_chain(m, c, p)],
            p,
        ));
    }
}

/// Closing `m + 1` sequences folds the chain shut: from a document context,
/// `m` suspended empty sequences and an open one holding `c`, the run ends
/// with the single completed document `c` wrapped `m + 1` times.
pub proof fn lemma_run_closes(m: nat, c: NodeV, p: Pos)
    ensures
        run(
            seq![StateV::DocumentStarted] + fresh_sequences(m) + seq![
                StateV::SequenceWaitForValue(seq![c]),
            ],
            closes(m + 1, p),
        ) == seq![StateV::EndDocument(singleton_chain(m + 1, c, p))],
    decreases m,
{
    let stack = seq![StateV::DocumentStarted] + fresh_sequences(m) + seq![
        StateV::SequenceWaitForValue(seq![c]),
    ];
    let node = NodeV::Sequence(seq![c], p);
    assert(stack.last() == StateV::SequenceWaitForValue(seq![c]));
    let rest = stack.drop_last();
    assert(rest =~= seq![StateV::DocumentStarted] + fresh_sequences(m));
    if m == 0 {
        assert(rest.last() == StateV::DocumentStarted);
        let post = rest.drop_last().push(StateV::EndDocument(node));
        assert(step(stack, closes(1, p)[0].0, closes(1, p)[0].1) == post);
        assert(singleton_chain(0, c, p) == c);
        assert(seq![singleton_chain(0, c, p)] =~= seq![c]);
        assert(singleton_chain(1, c, p) == node);
        assert(post =~= seq![StateV::EndDocument(singleton_chain(1, c, p))]);
        assert(run(stack, closes(1, p)) == run(post, closes(1, p).drop_first()));
        assert(closes(1, p).drop_first().len() == 0);
        assert(run(post, closes(1, p).drop_first()) == post);
    } else {
        assert(rest.last() == StateV::SequenceWaitForValue(Seq::empty()));
        let folded = StateV::SequenceWaitForValue(Seq::empty().push(node));
        let post = rest.drop_last().push(folded);
        assert(step(stack, closes(m + 1, p)[0].0, closes(m + 1, p)[0].1) == post);
        assert(Seq::empty().push(node) =~= seq![node]);
        assert(post =~= seq![StateV::DocumentStarted] + fresh_sequences((m - 1) as nat) + seq![
            StateV::SequenceWaitForValue(seq![node]),
        ]);
        assert(closes(m + 1, p).drop_first() =~= closes(m, p));
        assert(run(stack, closes(m + 1, p)) == run(post, closes(m + 1, p).drop_first()));
        lemma_run_closes((m - 1) as nat, node, p);
        assert((m - 1) as nat + 1 == m);
        assert(run(post, closes(m, p)) == seq![StateV::EndDocument(singleton_chain(m, node, p))]);
        lemma_chain_wrap(m, c, p);
        assert(singleton_chain(m, node, p) == singleton_chain(m + 1, c, p));
    }
}

/// The depth of a chain of single-item sequences around a scalar is the
/// number of sequences.
pub proof fn lemma_chain_depth(k: nat, inner: NodeV, p: Pos)
    requires
        inner is Scalar,
    ensures
        node_v_depth(singleton_chain(k, inner, p)) == k,
    decreases k,
{
    if k > 0 {
        lemma_chain_depth((k - 1) as nat, inner, p);
        let c = singleton_chain((k - 1) as nat, inner, p);
        assert(items_max_depth(seq![c], 0) == 0);
        assert(seq![c][0] == c);
        assert(items_max_depth(seq![c], 1) == node_v_depth(c));
    }
}

/// The scalar node a plain unanchored, untagged scalar event builds.
pub open spec fn scalar_of(value: Seq<char>, style: LexicalStyle, p: Pos) -> NodeV {
    NodeV::Scalar(ScalarV { value, pos: p, style: style_of_lexical(style) })
}

/// Nesting depth: from a fresh document context, `k` sequence starts, one
/// scalar and `k` sequence ends build exactly the chain of `k` single-item
/// sequences around that scalar, and the tree's depth is exactly `k`. While
/// building, the stack holds one context per open nesting level and no more
/// (`lemma_run_opens`).
pub proof fn lemma_nesting_depth(k: nat, value: Seq<char>, style: LexicalStyle, p: Pos)
    ensures
        run(
            seq![StateV::DocumentStarted],
            opens(k, p) + seq![(EventV::Scalar(value, style, 0, false), p)] + closes(k, p),
        ) == seq![StateV::EndDocument(singleton_chain(k, scalar_of(value, style, p), p))],
        node_v_depth(singleton_chain(k, scalar_of(value, style, p), p)) == k,
{
    let doc = seq![StateV::DocumentStarted];
    let sc = seq![(EventV::Scalar(value, style, 0, false), p)];
    let sv = scalar_of(value, style, p);
    lemma_run_append(doc, opens(k, p) + sc, closes(k, p));
    lemma_run_append(doc, opens(k, p), sc);
    assert((opens(k, p) + sc) + closes(k, p) =~= opens(k, p) + sc + closes(k, p));
    lemma_run_opens(doc, k, p);
    let stack1 = doc + fresh_sequences(k);
    assert(run(doc, opens(k, p)) == stack1);
    if k == 0 {
        assert(stack1.last() == StateV::DocumentStarted);
        assert(stack1 =~= doc);
        let post = stack1.drop_last().push(StateV::EndDocument(sv));
        assert(step(stack1, sc[0].0, sc[0].1) == post);
        assert(run(stack1, sc) == run(post, sc.drop_first()));
        assert(sc.drop_first().len() == 0);
        assert(run(post, sc.drop_first()) == post);
        assert(closes(0, p).len() == 0);
        assert(run(post, closes(0, p)) == post);
        assert(post =~= seq![StateV::EndDocument(singleton_chain(0, sv, p))]);
    } else {
        assert(stack1.last() == StateV::SequenceWaitForValue(Seq::empty()));
        let folded = StateV::SequenceWaitForValue(Seq::<NodeV>::empty().push(sv));
        let stack2 = stack1.drop_last().push(folded);
        assert(step(stack1, sc[0].0, sc[0].1) == stack2);
        assert(run(stack1, sc) == run(stack2, sc.drop_first()));
        assert(sc.drop_first().len() == 0);
        assert(run(stack2, sc.drop_first()) == stack2);
        assert(Seq::<NodeV>::empty().push(sv) =~= seq![sv]);
        assert(stack2 =~= doc + fresh_sequences((k - 1) as nat) + seq![
            StateV::SequenceWaitForValue(seq![sv]),
        ]);
        lemma_run_closes((k - 1) as nat, sv, p);
        assert((k - 1) as nat + 1 == k);
    }
    lemma_chain_depth(k, sv, p);
}

} // verus!
