//! The structural events the builder consumes, with their mathematical view.
//! The event source hands the builder one event at a time, each paired with
//! the source position it was read at.

use vstd::prelude::*;

use crate::model::ScalarStyle;

verus! {

/// The lexical style the event source reports for a scalar. `Any` is the one
/// case the tree model does not keep apart; it is folded into `Plain`.
#[derive(Debug, Clone, Copy, PartialEq, Eq, Structural)]
pub enum LexicalStyle {
    Any,
    Plain,
    SingleQuoted,
    DoubleQuoted,
    Literal,
    Folded,
}

/// What a lexical style becomes in the tree.
pub open spec fn style_of_lexical(style: LexicalStyle) -> ScalarStyle {
    match style {
        LexicalStyle::SingleQuoted => ScalarStyle::SingleQuoted,
        LexicalStyle::DoubleQuoted => ScalarStyle::DoubleQuoted,
        LexicalStyle::Literal => ScalarStyle::Literal,
        LexicalStyle::Folded => ScalarStyle::Folded,
        LexicalStyle::Any => ScalarStyle::Plain,
        LexicalStyle::Plain => ScalarStyle::Plain,
    }
}

impl ScalarStyle {
    /// Derive a node's style from the lexical style the event source
    /// reported; any style not kept apart defaults to `Plain`.
    pub fn from_lexical(style: LexicalStyle) -> (r: ScalarStyle)
        ensures
            r == style_of_lexical(style),
    {
        match style {
            LexicalStyle::SingleQuoted => ScalarStyle::SingleQuoted,
            LexicalStyle::DoubleQuoted => ScalarStyle::DoubleQuoted,
            LexicalStyle::Literal => ScalarStyle::Literal,
            LexicalStyle::Folded => ScalarStyle::Folded,
            _ => ScalarStyle::Plain,
        }
    }
}

/// One structural parse event. For `Scalar` the fields are the text, the
/// lexical style, the anchor id (`0` means no anchor) and whether the scalar
/// carried an explicit type tag. Container starts carry their anchor id.
#[derive(Debug)]
pub enum Event {
    Nothing,
    StreamStart,
    StreamEnd,
    DocumentStart,
    DocumentEnd,
    Alias(usize),
    Scalar(String, LexicalStyle, usize, bool),
    SequenceStart(usize),
    SequenceEnd,
    MappingStart(usize),
    MappingEnd,
}

/// Mathematical view of an event.
pub ghost enum EventV {
    Nothing,
    StreamStart,
    StreamEnd,
    DocumentStart,
    DocumentEnd,
    Alias(usize),
    Scalar(Seq<char>, LexicalStyle, usize, bool),
    SequenceStart(usize),
    SequenceEnd,
    MappingStart(usize),
    MappingEnd,
}

impl View for Event {
    type V = EventV;

    open spec fn view(&self) -> EventV {
        match self {
            Event::Nothing => EventV::Nothing,
            Event::StreamStart => EventV::StreamStart,
            Event::StreamEnd => EventV::StreamEnd,
            Event::DocumentStart => EventV::DocumentStart,
            Event::DocumentEnd => EventV::DocumentEnd,
            Event::Alias(id) => EventV::Alias(*id),
            Event::Scalar(v, style, id, tagged) => EventV::Scalar(v@, *style, *id, *tagged),
            Event::SequenceStart(id) => EventV::SequenceStart(*id),
            Event::SequenceEnd => EventV::SequenceEnd,
            Event::MappingStart(id) => EventV::MappingStart(*id),
            Event::MappingEnd => EventV::MappingEnd,
        }
    }
}

} // verus!
