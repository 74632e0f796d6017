//! The stack machine that folds a sequence of structural events into one
//! document tree, or into the first structural error it meets.
//!
//! The builder is a pure transition function of (stack of contexts, event):
//! `step` is that function on the mathematical views, and `Loader::on_event`
//! is proved to implement it exactly. Once a context holds an error, every
//! later event leaves the stack unchanged.

use vstd::prelude::*;

use crate::event::Event;
use crate::event::EventV;
use crate::event::LexicalStyle;
use crate::event::style_of_lexical;
use crate::model::MapNode;
use crate::model::Node;
use crate::model::NodeV;
use crate::model::Pos;
use crate::model::ScalarNode;
use crate::model::ScalarStyle;
use crate::model::ScalarV;
use crate::model::SequenceNode;
use crate::model::entries_has_key;
use crate::model::entries_view;
use crate::model::entries_wf;
use crate::model::lemma_entries_view_push;
use crate::model::lemma_nodes_view_push;
use crate::model::map_v_has_key;
use crate::model::map_v_unique_keys;
use crate::model::node_v_wf;
use crate::model::nodes_view;

verus! {

broadcast use vstd::seq::group_seq_axioms;

/// The first structural error of a parse, with the position that raised it.
#[derive(Debug)]
pub enum LoaderError {
    UnexpectedStreamEnd(Pos),
    AliasNotSupported(Pos),
    AnchorNotSupported(Pos),
    TagsNotSupported(Pos),
    KeyNotScalar(Pos),
    DuplicateKey(Pos),
    ScanError(String, Pos),
}

/// Mathematical view of a loader error.
pub ghost enum LoaderErrorV {
    UnexpectedStreamEnd(Pos),
    AliasNotSupported(Pos),
    AnchorNotSupported(Pos),
    TagsNotSupported(Pos),
    KeyNotScalar(Pos),
    DuplicateKey(Pos),
    ScanError(Seq<char>, Pos),
}

impl View for LoaderError {
    type V = LoaderErrorV;

    open spec fn view(&self) -> LoaderErrorV {
        match self {
            LoaderError::UnexpectedStreamEnd(p) => LoaderErrorV::UnexpectedStreamEnd(*p),
            LoaderError::AliasNotSupported(p) => LoaderErrorV::AliasNotSupported(*p),
            LoaderError::AnchorNotSupported(p) => LoaderErrorV::AnchorNotSupported(*p),
            LoaderError::TagsNotSupported(p) => LoaderErrorV::TagsNotSupported(*p),
            LoaderError::KeyNotScalar(p) => LoaderErrorV::KeyNotScalar(*p),
            LoaderError::DuplicateKey(p) => LoaderErrorV::DuplicateKey(*p),
            LoaderError::ScanError(s, p) => LoaderErrorV::ScanError(s@, *p),
        }
    }
}

/// One construction context of the builder. The payload of each variant is
/// the partially built value that the context owns.
#[derive(Debug)]
pub enum State {
    Initial,
    StreamStarted,
    DocumentStarted,
    MapWaitForKey(Vec<(ScalarNode, Node)>),
    MapWaitForValue(Vec<(ScalarNode, Node)>, ScalarNode),
    SequenceWaitForValue(Vec<Node>),
    EndDocument(Node),
    Error(LoaderError),
}

/// Mathematical view of a construction context.
pub ghost enum StateV {
    Initial,
    StreamStarted,
    DocumentStarted,
    MapWaitForKey(Seq<(ScalarV, NodeV)>),
    MapWaitForValue(Seq<(ScalarV, NodeV)>, ScalarV),
    SequenceWaitForValue(Seq<NodeV>),
    EndDocument(NodeV),
    Error(LoaderErrorV),
}

impl View for State {
    type V = StateV;

    open spec fn view(&self) -> StateV {
        match self {
            State::Initial => StateV::Initial,
            State::StreamStarted => StateV::StreamStarted,
            State::DocumentStarted => StateV::DocumentStarted,
            State::MapWaitForKey(es) => StateV::MapWaitForKey(entries_view(es@)),
            State::MapWaitForValue(es, k) => StateV::MapWaitForValue(entries_view(es@), k@),
            State::SequenceWaitForValue(ns) => StateV::SequenceWaitForValue(nodes_view(ns@)),
            State::EndDocument(n) => StateV::EndDocument(n@),
            State::Error(e) => StateV::Error(e@),
        }
    }
}

/// View of a whole stack of contexts, bottom first.
pub open spec fn stack_view(s: Seq<State>) -> Seq<StateV> {
    Seq::new(s.len(), |i: int| s[i]@)
}

/// States that may stand alone on the stack.
pub open spec fn is_base(s: StateV) -> bool {
    match s {
        StateV::Initial => true,
        StateV::StreamStarted => true,
        StateV::DocumentStarted => true,
        StateV::EndDocument(_) => true,
        StateV::Error(_) => true,
        _ => false,
    }
}

/// States a container start can suspend, besides the document context.
pub open spec fn is_suspended(s: StateV) -> bool {
    match s {
        StateV::SequenceWaitForValue(_) => true,
        StateV::MapWaitForValue(_, _) => true,
        _ => false,
    }
}

/// States that may sit on top of suspended parents.
pub open spec fn is_active(s: StateV) -> bool {
    match s {
        StateV::MapWaitForKey(_) => true,
        StateV::MapWaitForValue(_, _) => true,
        StateV::SequenceWaitForValue(_) => true,
        StateV::Error(_) => true,
        _ => false,
    }
}

/// The values one context owns are well formed: entries keyed uniquely, a
/// pending key not yet among the entries, every finished subtree well formed.
pub open spec fn state_values_wf(s: StateV) -> bool {
    match s {
        StateV::MapWaitForKey(es) => entries_wf(es),
        StateV::MapWaitForValue(es, k) => entries_wf(es) && !map_v_has_key(es, k.value),
        StateV::SequenceWaitForValue(items) => forall|i: int|
            0 <= i < items.len() ==> node_v_wf(#[trigger] items[i]),
        StateV::EndDocument(n) => node_v_wf(n),
        _ => true,
    }
}

/// The builder's invariant over the view of its stack: a lone base state, or
/// the one document context at the bottom, suspended containers between and
/// an active context on top; and every context's values well formed.
pub open spec fn stack_wf(stack: Seq<StateV>) -> bool {
    &&& stack.len() >= 1
    &&& (stack.len() == 1 ==> is_base(stack[0]))
    &&& (stack.len() > 1 ==> {
        &&& stack[0] is DocumentStarted
        &&& forall|i: int| 1 <= i < stack.len() - 1 ==> is_suspended(#[trigger] stack[i])
        &&& is_active(stack.last())
    })
    &&& forall|i: int| 0 <= i < stack.len() ==> state_values_wf(#[trigger] stack[i])
}

/// Which events the builder accepts in a given stack. An event outside this
/// set means the event source broke its own framing contract; the builder
/// treats that as a fatal fault, not as a recoverable error.
pub open spec fn event_permitted(stack: Seq<StateV>, ev: EventV) -> bool {
    stack.len() >= 1 && {
        let st = stack.last();
        st is Error || match ev {
            EventV::Nothing => true,
            EventV::StreamStart => st is Initial,
            EventV::StreamEnd => true,
            EventV::DocumentStart => st is StreamStarted,
            EventV::DocumentEnd => st is EndDocument,
            EventV::Alias(_) => true,
            EventV::Scalar(_, _, aid, tagged) => aid != 0 || tagged || st is MapWaitForKey
                || st is MapWaitForValue || st is SequenceWaitForValue || st is DocumentStarted,
            EventV::SequenceStart(aid) => aid != 0 || st is DocumentStarted
                || st is SequenceWaitForValue || st is MapWaitForValue || st is MapWaitForKey,
            EventV::SequenceEnd => st is SequenceWaitForValue,
            EventV::MappingStart(aid) => aid != 0 || st is DocumentStarted
                || st is SequenceWaitForValue || st is MapWaitForValue || st is MapWaitForKey,
            EventV::MappingEnd => st is MapWaitForKey,
        }
    }
}

/// Transition on a scalar event: reject anchors and tags, else place the
/// scalar as key, map value, sequence item or whole document.
pub open spec fn step_scalar(
    stack: Seq<StateV>,
    value: Seq<char>,
    style: LexicalStyle,
    aid: usize,
    tagged: bool,
    pos: Pos,
) -> Seq<StateV>
    recommends
        stack.len() >= 1,
{
    let st = stack.last();
    let rest = stack.drop_last();
    if aid != 0 {
        rest.push(StateV::Error(LoaderErrorV::AnchorNotSupported(pos)))
    } else if tagged {
        rest.push(StateV::Error(LoaderErrorV::TagsNotSupported(pos)))
    } else {
        let sv = ScalarV { value, pos, style: style_of_lexical(style) };
        match st {
            StateV::MapWaitForKey(es) => if map_v_has_key(es, value) {
                rest.push(StateV::Error(LoaderErrorV::DuplicateKey(pos)))
            } else {
                rest.push(StateV::MapWaitForValue(es, sv))
            },
            StateV::MapWaitForValue(es, k) => rest.push(
                StateV::MapWaitForKey(es.push((k, NodeV::Scalar(sv)))),
            ),
            StateV::SequenceWaitForValue(items) => rest.push(
                StateV::SequenceWaitForValue(items.push(NodeV::Scalar(sv))),
            ),
            StateV::DocumentStarted => rest.push(StateV::EndDocument(NodeV::Scalar(sv))),
            _ => stack,
        }
    }
}

/// Transition on a container start: reject anchors, reject a container in
/// key position, else suspend the current context and open the container.
pub open spec fn step_open(stack: Seq<StateV>, aid: usize, pos: Pos, is_map: bool) -> Seq<StateV>
    recommends
        stack.len() >= 1,
{
    let st = stack.last();
    let rest = stack.drop_last();
    if aid != 0 {
        rest.push(StateV::Error(LoaderErrorV::AnchorNotSupported(pos)))
    } else {
        match st {
            StateV::DocumentStarted => stack.push(opened(is_map)),
            StateV::SequenceWaitForValue(_) => stack.push(opened(is_map)),
            StateV::MapWaitForValue(_, _) => stack.push(opened(is_map)),
            StateV::MapWaitForKey(_) => rest.push(
                StateV::Error(LoaderErrorV::KeyNotScalar(pos)),
            ),
            _ => stack,
        }
    }
}

/// The fresh context a container start opens.
pub open spec fn opened(is_map: bool) -> StateV {
    if is_map {
        StateV::MapWaitForKey(Seq::empty())
    } else {
        StateV::SequenceWaitForValue(Seq::empty())
    }
}

/// Folding a finished container into its suspended parent. `rest` is the
/// stack after the finished context was popped.
pub open spec fn step_fold(rest: Seq<StateV>, node: NodeV) -> Seq<StateV>
    recommends
        rest.len() >= 1,
{
    let parent = rest.last();
    let below = rest.drop_last();
    match parent {
        StateV::DocumentStarted => below.push(StateV::EndDocument(node)),
        StateV::MapWaitForValue(es, k) => below.push(StateV::MapWaitForKey(es.push((k, node)))),
        StateV::SequenceWaitForValue(items) => below.push(
            StateV::SequenceWaitForValue(items.push(node)),
        ),
        _ => rest,
    }
}

/// The machine's transition table: the view of the stack after the builder
/// consumes `ev` at position `pos`. An error on top absorbs every event.
pub open spec fn step(stack: Seq<StateV>, ev: EventV, pos: Pos) -> Seq<StateV>
    recommends
        stack.len() >= 1,
{
    let st = stack.last();
    let rest = stack.drop_last();
    if st is Error {
        stack
    } else {
        match ev {
            EventV::Nothing => stack,
            EventV::StreamStart => rest.push(StateV::StreamStarted),
            EventV::StreamEnd => if st is StreamStarted {
                rest.push(
                    StateV::EndDocument(
                        NodeV::Scalar(
                            ScalarV { value: Seq::empty(), pos, style: ScalarStyle::Plain },
                        ),
                    ),
                )
            } else {
                rest.push(StateV::Error(LoaderErrorV::UnexpectedStreamEnd(pos)))
            },
            EventV::DocumentStart => rest.push(StateV::DocumentStarted),
            EventV::DocumentEnd => stack,
            EventV::Alias(_) => rest.push(StateV::Error(LoaderErrorV::AliasNotSupported(pos))),
            EventV::Scalar(value, style, aid, tagged) => step_scalar(
                stack,
                value,
                style,
                aid,
                tagged,
                pos,
            ),
            EventV::SequenceStart(aid) => step_open(stack, aid, pos, false),
            EventV::SequenceEnd => match st {
                StateV::SequenceWaitForValue(items) => step_fold(
                    rest,
                    NodeV::Sequence(items, pos),
                ),
                _ => stack,
            },
            EventV::MappingStart(aid) => step_open(stack, aid, pos, true),
            EventV::MappingEnd => match st {
                StateV::MapWaitForKey(es) => step_fold(rest, NodeV::Mapping(es, pos)),
                _ => stack,
            },
        }
    }
}

/// Appending a fresh key keeps map entries well formed.
pub proof fn lemma_entries_wf_push(es: Seq<(ScalarV, NodeV)>, k: ScalarV, v: NodeV)
    requires
        entries_wf(es),
        !map_v_has_key(es, k.value),
        node_v_wf(v),
    ensures
        entries_wf(es.push((k, v))),
{
    let es2 = es.push((k, v));
    assert forall|i: int, j: int|
        0 <= i < j < es2.len() implies (#[trigger] es2[i]).0.value != (
    #[trigger] es2[j]).0.value by {
        if j < es.len() {
        } else {
            assert(es2[i] == es[i]);
            assert(es2[j].0 == k);
            assert(!(es[i].0.value == k.value));
        }
    }
    assert forall|i: int| 0 <= i < es2.len() implies node_v_wf((#[trigger] es2[i]).1) by {
        if i < es.len() {
            assert(es2[i] == es[i]);
        }
    }
}

/// A permitted step keeps the builder's invariant.
pub proof fn lemma_step_preserves_wf(stack: Seq<StateV>, ev: EventV, pos: Pos)
    requires
        stack_wf(stack),
        event_permitted(stack, ev),
    ensures
        stack_wf(step(stack, ev, pos)),
{
    let st = stack.last();
    let rest = stack.drop_last();
    let post = step(stack, ev, pos);
    if st is Error {
    } else {
        // A context below the top is the document context or a suspended one.
        assert(forall|i: int| 0 <= i < rest.len() ==> rest[i] == stack[i]);
        match ev {
            EventV::Nothing => {
            },
            EventV::StreamStart => {
                assert(stack.len() == 1);
            },
            EventV::StreamEnd => {
                if st is StreamStarted {
                    assert(stack.len() == 1);
                } else {
                    lemma_error_top_wf(stack, post);
                }
            },
            EventV::DocumentStart => {
                assert(stack.len() == 1);
            },
            EventV::DocumentEnd => {
            },
            EventV::Alias(_) => {
                lemma_error_top_wf(stack, post);
            },
            EventV::Scalar(value, style, aid, tagged) => {
                if aid != 0 || tagged {
                    lemma_error_top_wf(stack, post);
                } else {
                    let sv = ScalarV { value, pos, style: style_of_lexical(style) };
                    match st {
                        StateV::MapWaitForKey(es) => {
                            if map_v_has_key(es, value) {
                                lemma_error_top_wf(stack, post);
                            } else {
                                lemma_top_replaced_wf(
                                    stack,
                                    post,
                                    StateV::MapWaitForValue(es, sv),
                                );
                            }
                        },
                        StateV::MapWaitForValue(es, k) => {
                            lemma_entries_wf_push(es, k, NodeV::Scalar(sv));
                            lemma_top_replaced_wf(
                                stack,
                                post,
                                StateV::MapWaitForKey(es.push((k, NodeV::Scalar(sv)))),
                            );
                        },
                        StateV::SequenceWaitForValue(items) => {
                            let items2 = items.push(NodeV::Scalar(sv));
                            assert(forall|i: int|
                                0 <= i < items.len() ==> items2[i] == items[i]);
                            lemma_top_replaced_wf(
                                stack,
                                post,
                                StateV::SequenceWaitForValue(items2),
                            );
                        },
                        StateV::DocumentStarted => {
                            assert(stack.len() == 1);
                        },
                        _ => {
                            assert(false);
                        },
                    }
                }
            },
            EventV::SequenceStart(aid) => {
                lemma_step_open_wf(stack, aid, pos, false);
            },
            EventV::MappingStart(aid) => {
                lemma_step_open_wf(stack, aid, pos, true);
            },
            EventV::SequenceEnd => {
                let items = st->SequenceWaitForValue_0;
                let node = NodeV::Sequence(items, pos);
                assert(state_values_wf(st));
                assert(node_v_wf(node));
                lemma_step_fold_wf(stack, node);
            },
            EventV::MappingEnd => {
                let es = st->MapWaitForKey_0;
                let node = NodeV::Mapping(es, pos);
                assert(state_values_wf(st));
                assert(node_v_wf(node));
                lemma_step_fold_wf(stack, node);
            },
        }
    }
}

/// Replacing the top context by an error keeps the invariant.
proof fn lemma_error_top_wf(stack: Seq<StateV>, post: Seq<StateV>)
    requires
        stack_wf(stack),
        post.len() == stack.len(),
        forall|i: int| 0 <= i < stack.len() - 1 ==> post[i] == stack[i],
        post.last() is Error,
    ensures
        stack_wf(post),
{
    assert(post.len() >= 1);
    if post.len() > 1 {
        assert(post[0] == stack[0]);
        assert(forall|i: int| 1 <= i < post.len() - 1 ==> post[i] == stack[i]);
    }
    assert(forall|i: int| 0 <= i < post.len() - 1 ==> state_values_wf(#[trigger] post[i]));
    assert(state_values_wf(post.last()));
}

/// Replacing the top context by another active, well-formed one keeps the
/// invariant.
proof fn lemma_top_replaced_wf(stack: Seq<StateV>, post: Seq<StateV>, top: StateV)
    requires
        stack_wf(stack),
        stack.len() > 1 ==> is_active(top),
        stack.len() == 1 ==> is_base(top),
        state_values_wf(top),
        post == stack.drop_last().push(top),
    ensures
        stack_wf(post),
{
    assert(post.len() == stack.len());
    assert(forall|i: int| 0 <= i < stack.len() - 1 ==> post[i] == stack[i]);
    assert(post.last() == top);
    assert(forall|i: int| 0 <= i < post.len() - 1 ==> state_values_wf(#[trigger] post[i]));
}

/// Opening a container keeps the invariant.
proof fn lemma_step_open_wf(stack: Seq<StateV>, aid: usize, pos: Pos, is_map: bool)
    requires
        stack_wf(stack),
        !(stack.last() is Error),
        aid != 0 || stack.last() is DocumentStarted || stack.last() is SequenceWaitForValue
            || stack.last() is MapWaitForValue || stack.last() is MapWaitForKey,
    ensures
        stack_wf(step_open(stack, aid, pos, is_map)),
{
    let st = stack.last();
    let post = step_open(stack, aid, pos, is_map);
    if aid != 0 {
        lemma_error_top_wf(stack, post);
    } else {
        match st {
            StateV::MapWaitForKey(_) => {
                lemma_error_top_wf(stack, post);
            },
            _ => {
                // The current context is suspended and a fresh one opens.
                assert(post == stack.push(opened(is_map)));
                assert(post.len() == stack.len() + 1);
                assert(post[0] == stack[0]);
                if stack.len() == 1 {
                    assert(st == stack[0]);
                    assert(post[0] is DocumentStarted);
                }
                assert(forall|i: int| 0 <= i < stack.len() ==> post[i] == stack[i]);
                assert(is_suspended(stack.last()) || stack.last() is DocumentStarted);
                assert(forall|i: int| 1 <= i < post.len() - 1 ==> is_suspended(#[trigger] post[i]));
                assert(map_v_unique_keys(Seq::<(ScalarV, NodeV)>::empty()));
                assert(state_values_wf(opened(is_map)));
                assert(forall|i: int| 0 <= i < post.len() ==> state_values_wf(#[trigger] post[i]));
            },
        }
    }
}

/// Folding a finished container into its parent keeps the invariant.
proof fn lemma_step_fold_wf(stack: Seq<StateV>, node: NodeV)
    requires
        stack_wf(stack),
        stack.last() is SequenceWaitForValue || stack.last() is MapWaitForKey,
        node_v_wf(node),
    ensures
        stack_wf(step_fold(stack.drop_last(), node)),
{
    let rest = stack.drop_last();
    assert(stack.len() >= 2);
    let parent = rest.last();
    assert(parent == stack[stack.len() - 2]);
    let below = rest.drop_last();
    let post = step_fold(rest, node);
    assert(forall|i: int| 0 <= i < below.len() ==> below[i] == stack[i]);
    assert(state_values_wf(parent));
    match parent {
        StateV::DocumentStarted => {
            assert(stack.len() == 2);
            assert(post == below.push(StateV::EndDocument(node)));
            assert(post.len() == 1);
        },
        StateV::MapWaitForValue(es, k) => {
            lemma_entries_wf_push(es, k, node);
            assert(post == below.push(StateV::MapWaitForKey(es.push((k, node)))));
            assert(post.len() == stack.len() - 1);
            if post.len() > 1 {
                assert(post[0] == stack[0]);
                assert(forall|i: int| 1 <= i < post.len() - 1 ==> is_suspended(#[trigger] post[i]));
            } else {
                assert(false);
            }
            assert(forall|i: int| 0 <= i < post.len() ==> state_values_wf(#[trigger] post[i]));
        },
        StateV::SequenceWaitForValue(items) => {
            let items2 = items.push(node);
            assert(forall|i: int| 0 <= i < items.len() ==> items2[i] == items[i]);
            assert(post == below.push(StateV::SequenceWaitForValue(items2)));
            assert(post.len() == stack.len() - 1);
            if post.len() > 1 {
                assert(post[0] == stack[0]);
                assert(forall|i: int| 1 <= i < post.len() - 1 ==> is_suspended(#[trigger] post[i]));
            } else {
                assert(false);
            }
            assert(forall|i: int| 0 <= i < post.len() ==> state_values_wf(#[trigger] post[i]));
        },
        _ => {
            // A context below the top is the document context or a suspended
            // one, so no other parent can occur.
            if stack.len() == 2 {
                assert(parent == stack[0]);
                assert(false);
            } else {
                assert(is_suspended(parent));
                assert(false);
            }
        },
    }
}

/// The view of a stack after a push.
pub proof fn lemma_stack_view_push(s: Seq<State>, x: State)
    ensures
        stack_view(s.push(x)) == stack_view(s).push(x@),
{
    assert(stack_view(s.push(x)) =~= stack_view(s).push(x@));
}

/// The view of a stack after a pop.
pub proof fn lemma_stack_view_drop_last(s: Seq<State>)
    requires
        s.len() >= 1,
    ensures
        stack_view(s.drop_last()) == stack_view(s).drop_last(),
        stack_view(s).last() == s.last()@,
{
    assert(stack_view(s.drop_last()) =~= stack_view(s).drop_last());
}

/// The builder: a stack of construction contexts. The top is the context the
/// next event advances; below it lie the suspended parents of every
/// unfinished container, so the stack's length is one more than the nesting
/// depth of unfinished containers.
pub struct Loader {
    stack: Vec<State>,
}

impl View for Loader {
    type V = Seq<StateV>;

    closed spec fn view(&self) -> Seq<StateV> {
        stack_view(self.stack@)
    }
}

impl Loader {
    /// The builder's invariant.
    pub open spec fn wf(&self) -> bool {
        stack_wf(self@)
    }

    /// A fresh builder, ready for the stream start.
    pub fn new() -> (r: Loader)
        ensures
            r@ == seq![StateV::Initial],
            r.wf(),
    {
        let r = Loader { stack: vec![State::Initial] };
        proof {
            assert(r@ =~= seq![StateV::Initial]);
        }
        r
    }

    /// Whether the builder accepts `ev` now; an event it does not accept
    /// would mean the event source broke its framing contract.
    pub fn accepts(&self, ev: &Event) -> (r: bool)
        requires
            self.wf(),
        ensures
            r == event_permitted(self@, ev@),
    {
        proof {
            assert(self@.last() == self.stack@.last()@);
        }
        let top = &self.stack[self.stack.len() - 1];
        if let State::Error(_) = top {
            return true;
        }
        match ev {
            Event::Nothing => true,
            Event::StreamStart => matches!(top, State::Initial),
            Event::StreamEnd => true,
            Event::DocumentStart => matches!(top, State::StreamStarted),
            Event::DocumentEnd => matches!(top, State::EndDocument(_)),
            Event::Alias(_) => true,
            Event::Scalar(_, _, aid, tagged) => *aid != 0 || *tagged || matches!(
                top,
                State::MapWaitForKey(_) | State::MapWaitForValue(_, _)
                    | State::SequenceWaitForValue(_) | State::DocumentStarted,
            ),
            Event::SequenceStart(aid) => *aid != 0 || matches!(
                top,
                State::DocumentStarted | State::SequenceWaitForValue(_)
                    | State::MapWaitForValue(_, _) | State::MapWaitForKey(_),
            ),
            Event::SequenceEnd => matches!(top, State::SequenceWaitForValue(_)),
            Event::MappingStart(aid) => *aid != 0 || matches!(
                top,
                State::DocumentStarted | State::SequenceWaitForValue(_)
                    | State::MapWaitForValue(_, _) | State::MapWaitForKey(_),
            ),
            Event::MappingEnd => matches!(top, State::MapWaitForKey(_)),
        }
    }

    /// Whether a result (document or error) is ready to be retrieved.
    pub fn has_result(&self) -> (r: bool)
        requires
            self.wf(),
        ensures
            r == (self@.last() is EndDocument || self@.last() is Error),
    {
        proof {
            assert(self@.last() == self.stack@.last()@);
        }
        let top = &self.stack[self.stack.len() - 1];
        matches!(top, State::EndDocument(_) | State::Error(_))
    }

    /// Consume one event at source position `mark`: exactly the transition
    /// `step` describes, and the invariant is kept.
    pub fn on_event(&mut self, ev: Event, mark: Pos)
        requires
            old(self).wf(),
            event_permitted(old(self)@, ev@),
        ensures
            final(self)@ == step(old(self)@, ev@, mark),
            final(self).wf(),
    {
        proof {
            lemma_step_preserves_wf(old(self)@, ev@, mark);
            lemma_stack_view_drop_last(old(self).stack@);
        }
        let ghost pre = old(self)@;
        let state = self.stack.pop().unwrap();
        proof {
            assert(self@ == pre.drop_last());
            assert(state@ == pre.last());
        }
        if let State::Error(_) = state {
            self.stack.push(state);
            proof {
                lemma_stack_view_push(old(self).stack@.drop_last(), state);
                assert(self@ =~= pre);
            }
            return ;
        }
        let new_state = match ev {
            Event::Nothing => state,
            Event::StreamStart => match state {
                State::Initial => State::StreamStarted,
                _ => {
                    proof {
                        assert(false);
                    }
                    State::StreamStarted
                },
            },
            Event::StreamEnd => match state {
                State::StreamStarted => {
                    let scalar_node = ScalarNode {
                        value: String::new(),
                        pos: mark,
                        scalar_style: ScalarStyle::Plain,
                    };
                    State::EndDocument(Node::Scalar(scalar_node))
                },
                _ => State::Error(LoaderError::UnexpectedStreamEnd(mark)),
            },
            Event::DocumentStart => match state {
                State::StreamStarted => State::DocumentStarted,
                _ => {
                    proof {
                        assert(false);
                    }
                    State::DocumentStarted
                },
            },
            Event::DocumentEnd => match state {
                State::EndDocument(_) => state,
                _ => {
                    proof {
                        assert(false);
                    }
                    State::StreamStarted
                },
            },
            Event::Alias(_) => State::Error(LoaderError::AliasNotSupported(mark)),
            Event::Scalar(value, style, id, tagged) => {
                if id == 0 {
                    if !tagged {
                        let scalar_node = ScalarNode {
                            value,
                            pos: mark,
                            scalar_style: ScalarStyle::from_lexical(style),
                        };
                        match state {
                            State::MapWaitForKey(m) => {
                                if entries_has_key(&m, &scalar_node.value) {
                                    State::Error(LoaderError::DuplicateKey(mark))
                                } else {
                                    State::MapWaitForValue(m, scalar_node)
                                }
                            },
                            State::MapWaitForValue(mut m, k) => {
                                let ghost m0 = m@;
                                m.push((k, Node::Scalar(scalar_node)));
                                proof {
                                    lemma_entries_view_push(m0, (k, Node::Scalar(scalar_node)));
                                }
                                State::MapWaitForKey(m)
                            },
                            State::SequenceWaitForValue(mut s) => {
                                let ghost s0 = s@;
                                let node = Node::Scalar(scalar_node);
                                s.push(node);
                                proof {
                                    lemma_nodes_view_push(s0, Node::Scalar(scalar_node));
                                }
                                State::SequenceWaitForValue(s)
                            },
                            State::DocumentStarted => State::EndDocument(
                                Node::Scalar(scalar_node),
                            ),
                            _ => {
                                proof {
                                    assert(false);
                                }
                                State::DocumentStarted
                            },
                        }
                    } else {
                        State::Error(LoaderError::TagsNotSupported(mark))
                    }
                } else {
                    State::Error(LoaderError::AnchorNotSupported(mark))
                }
            },
            Event::SequenceStart(id) => self.start_block(state, id, mark, false),
            Event::SequenceEnd => match state {
                State::SequenceWaitForValue(s) => {
                    let seq_node = SequenceNode { value: s, pos: mark };
                    self.end_block(Node::Sequence(seq_node))
                },
                _ => {
                    proof {
                        assert(false);
                    }
                    State::DocumentStarted
                },
            },
            Event::MappingStart(id) => self.start_block(state, id, mark, true),
            Event::MappingEnd => match state {
                State::MapWaitForKey(m) => {
                    let map_node = MapNode { value: m, pos: mark };
                    self.end_block(Node::Mapping(map_node))
                },
                _ => {
                    proof {
                        assert(false);
                    }
                    State::DocumentStarted
                },
            },
        };
        proof {
            lemma_stack_view_push(self.stack@, new_state);
        }
        self.stack.push(new_state);
        proof {
            assert(pre.drop_last().push(pre.last()) =~= pre);
            assert(self@ == step(pre, ev@, mark));
        }
    }

    /// Suspend the current context and open a nested container, or reject it.
    fn start_block(&mut self, state: State, id: usize, mark: Pos, is_map: bool) -> (r: State)
        requires
            id != 0 || state@ is DocumentStarted || state@ is SequenceWaitForValue || state@
                is MapWaitForValue || state@ is MapWaitForKey,
        ensures
            final(self)@.push(r@) == step_open(old(self)@.push(state@), id, mark, is_map),
    {
        proof {
            assert(old(self)@.push(state@).drop_last() =~= old(self)@);
        }
        if id == 0 {
            match state {
                State::MapWaitForKey(_) => State::Error(LoaderError::KeyNotScalar(mark)),
                State::DocumentStarted | State::SequenceWaitForValue(_) | State::MapWaitForValue(
                    _,
                    _,
                ) => {
                    let ghost st = state@;
                    proof {
                        lemma_stack_view_push(self.stack@, state);
                    }
                    self.stack.push(state);
                    let fresh = if is_map {
                        State::MapWaitForKey(Vec::new())
                    } else {
                        State::SequenceWaitForValue(Vec::new())
                    };
                    proof {
                        assert(fresh@ == opened(is_map));
                        assert(old(self)@.push(st).last() == st);
                    }
                    fresh
                },
                _ => {
                    proof {
                        assert(false);
                    }
                    State::DocumentStarted
                },
            }
        } else {
            State::Error(LoaderError::AnchorNotSupported(mark))
        }
    }

    /// Fold a finished container into the suspended parent context.
    fn end_block(&mut self, node: Node) -> (r: State)
        requires
            old(self)@.len() >= 1,
            old(self)@.last() is DocumentStarted || old(self)@.last() is SequenceWaitForValue
                || old(self)@.last() is MapWaitForValue,
        ensures
            final(self)@.push(r@) == step_fold(old(self)@, node@),
    {
        proof {
            lemma_stack_view_drop_last(old(self).stack@);
        }
        let parent = self.stack.pop().unwrap();
        proof {
            assert(parent@ == old(self)@.last());
            assert(self@ == old(self)@.drop_last());
        }
        match parent {
            State::DocumentStarted => State::EndDocument(node),
            State::MapWaitForValue(mut m, k) => {
                let ghost m0 = m@;
                m.push((k, node));
                proof {
                    lemma_entries_view_push(m0, (k, node));
                }
                State::MapWaitForKey(m)
            },
            State::SequenceWaitForValue(mut s) => {
                let ghost s0 = s@;
                s.push(node);
                proof {
                    lemma_nodes_view_push(s0, node);
                }
                State::SequenceWaitForValue(s)
            },
            _ => {
                proof {
                    assert(false);
                }
                State::DocumentStarted
            },
        }
    }

    /// Retrieve the result: the completed document on `EndDocument`, the
    /// first recorded error on `Error`. The document is well formed: every
    /// mapping in it, at any depth, has pairwise distinct keys.
    pub fn get_result(self) -> (r: Result<Node, LoaderError>)
        requires
            self.wf(),
            self@.last() is EndDocument || self@.last() is Error,
        ensures
            self@.last() is EndDocument ==> (r matches Ok(n) && n@ == self@.last()
                ->EndDocument_0 && node_v_wf(n@)),
            self@.last() is Error ==> (r matches Err(e) && e@ == self@.last()->Error_0),
    {
        proof {
            lemma_stack_view_drop_last(self.stack@);
            assert(state_values_wf(self@.last()));
        }
        let mut stack = self.stack;
        let elem = stack.pop().unwrap();
        match elem {
            State::EndDocument(n) => Ok(n),
            State::Error(e) => Err(e),
            _ => {
                proof {
                    assert(false);
                }
                Err(LoaderError::UnexpectedStreamEnd(Pos { index: 0, line: 0, col: 0 }))
            },
        }
    }
}

} // verus!
