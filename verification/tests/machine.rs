//! Driving the builder directly, one structural event at a time, with
//! hand-picked positions.

use yaml_loader::event::Event;
use yaml_loader::event::LexicalStyle;
use yaml_loader::loader::Loader;
use yaml_loader::loader::LoaderError;
use yaml_loader::model::Node;
use yaml_loader::model::Pos;
use yaml_loader::model::ScalarStyle;

fn pos(index: usize, line: usize, col: usize) -> Pos {
    Pos { index, line, col }
}

fn feed(loader: &mut Loader, ev: Event, at: Pos) {
    assert!(loader.accepts(&ev));
    loader.on_event(ev, at);
}

fn plain(text: &str) -> Event {
    Event::Scalar(String::from(text), LexicalStyle::Plain, 0, false)
}

#[test]
fn empty_stream_yields_empty_plain_scalar() {
    let mut loader = Loader::new();
    feed(&mut loader, Event::StreamStart, pos(0, 1, 1));
    feed(&mut loader, Event::StreamEnd, pos(0, 1, 1));
    assert!(loader.has_result());
    let node = loader.get_result().unwrap();
    match node {
        Node::Scalar(s) => {
            assert_eq!(s.value, "");
            assert_eq!(s.scalar_style, ScalarStyle::Plain);
            assert_eq!(s.pos, pos(0, 1, 1));
        }
        _ => panic!(),
    }
}

#[test]
fn scalar_document() {
    let mut loader = Loader::new();
    feed(&mut loader, Event::StreamStart, pos(0, 1, 1));
    feed(&mut loader, Event::DocumentStart, pos(0, 1, 1));
    feed(&mut loader, plain("Hello World"), pos(0, 1, 1));
    feed(&mut loader, Event::DocumentEnd, pos(11, 1, 12));
    let node = loader.get_result().unwrap();
    match node {
        Node::Scalar(s) => {
            assert_eq!(s.value, "Hello World");
            assert_eq!(s.scalar_style, ScalarStyle::Plain);
        }
        _ => panic!(),
    }
}

#[test]
fn sequence_keeps_order() {
    let mut loader = Loader::new();
    feed(&mut loader, Event::StreamStart, pos(0, 1, 1));
    feed(&mut loader, Event::DocumentStart, pos(0, 1, 1));
    feed(&mut loader, Event::SequenceStart(0), pos(0, 1, 1));
    feed(&mut loader, plain("First"), pos(2, 1, 3));
    feed(&mut loader, plain("Second"), pos(10, 2, 3));
    feed(&mut loader, plain("Third"), pos(19, 3, 3));
    feed(&mut loader, Event::SequenceEnd, pos(24, 3, 8));
    let node = loader.get_result().unwrap();
    let seq = match node {
        Node::Sequence(s) => s,
        _ => panic!(),
    };
    assert_eq!(seq.value.len(), 3);
    let texts: Vec<&str> = seq
        .value
        .iter()
        .map(|n| match n {
            Node::Scalar(s) => s.value.as_str(),
            _ => panic!(),
        })
        .collect();
    assert_eq!(texts, vec!["First", "Second", "Third"]);
    assert_eq!(seq.pos, pos(24, 3, 8));
}

#[test]
fn duplicate_key_errors_at_second_occurrence() {
    let mut loader = Loader::new();
    feed(&mut loader, Event::StreamStart, pos(0, 1, 1));
    feed(&mut loader, Event::DocumentStart, pos(0, 1, 1));
    feed(&mut loader, Event::MappingStart(0), pos(0, 1, 1));
    feed(&mut loader, plain("key"), pos(0, 1, 1));
    feed(&mut loader, plain("1"), pos(5, 1, 6));
    feed(&mut loader, plain("key"), pos(7, 2, 1));
    // The event source still closes its containers; the error must stay.
    feed(&mut loader, Event::MappingEnd, pos(10, 2, 4));
    feed(&mut loader, Event::DocumentEnd, pos(10, 2, 4));
    feed(&mut loader, Event::StreamEnd, pos(10, 2, 4));
    let err = loader.get_result().unwrap_err();
    match err {
        LoaderError::DuplicateKey(p) => assert_eq!(p, pos(7, 2, 1)),
        _ => panic!(),
    }
}

#[test]
fn container_as_key_is_rejected() {
    let mut loader = Loader::new();
    feed(&mut loader, Event::StreamStart, pos(0, 1, 1));
    feed(&mut loader, Event::DocumentStart, pos(0, 1, 1));
    feed(&mut loader, Event::MappingStart(0), pos(0, 1, 1));
    feed(&mut loader, Event::SequenceStart(0), pos(2, 1, 3));
    let err = loader.get_result().unwrap_err();
    match err {
        LoaderError::KeyNotScalar(p) => assert_eq!(p, pos(2, 1, 3)),
        _ => panic!(),
    }
}

#[test]
fn mapping_as_key_is_rejected() {
    let mut loader = Loader::new();
    feed(&mut loader, Event::StreamStart, pos(0, 1, 1));
    feed(&mut loader, Event::DocumentStart, pos(0, 1, 1));
    feed(&mut loader, Event::MappingStart(0), pos(0, 1, 1));
    feed(&mut loader, Event::MappingStart(0), pos(2, 1, 3));
    let err = loader.get_result().unwrap_err();
    assert!(matches!(err, LoaderError::KeyNotScalar(p) if p == pos(2, 1, 3)));
}

#[test]
fn alias_is_rejected() {
    let mut loader = Loader::new();
    feed(&mut loader, Event::StreamStart, pos(0, 1, 1));
    feed(&mut loader, Event::DocumentStart, pos(0, 1, 1));
    feed(&mut loader, Event::Alias(1), pos(3, 1, 4));
    let err = loader.get_result().unwrap_err();
    assert!(matches!(err, LoaderError::AliasNotSupported(p) if p == pos(3, 1, 4)));
}

#[test]
fn anchored_scalar_is_rejected() {
    let mut loader = Loader::new();
    feed(&mut loader, Event::StreamStart, pos(0, 1, 1));
    feed(&mut loader, Event::DocumentStart, pos(0, 1, 1));
    feed(
        &mut loader,
        Event::Scalar(String::from("v"), LexicalStyle::Plain, 7, false),
        pos(3, 1, 4),
    );
    let err = loader.get_result().unwrap_err();
    assert!(matches!(err, LoaderError::AnchorNotSupported(p) if p == pos(3, 1, 4)));
}

#[test]
fn tagged_scalar_is_rejected() {
    let mut loader = Loader::new();
    feed(&mut loader, Event::StreamStart, pos(0, 1, 1));
    feed(&mut loader, Event::DocumentStart, pos(0, 1, 1));
    feed(
        &mut loader,
        Event::Scalar(String::from("v"), LexicalStyle::Plain, 0, true),
        pos(3, 1, 4),
    );
    let err = loader.get_result().unwrap_err();
    assert!(matches!(err, LoaderError::TagsNotSupported(p) if p == pos(3, 1, 4)));
}

#[test]
fn anchored_container_is_rejected() {
    let mut loader = Loader::new();
    feed(&mut loader, Event::StreamStart, pos(0, 1, 1));
    feed(&mut loader, Event::DocumentStart, pos(0, 1, 1));
    feed(&mut loader, Event::SequenceStart(2), pos(0, 1, 1));
    let err = loader.get_result().unwrap_err();
    assert!(matches!(err, LoaderError::AnchorNotSupported(p) if p == pos(0, 1, 1)));
}

#[test]
fn unexpected_stream_end_is_an_error() {
    let mut loader = Loader::new();
    feed(&mut loader, Event::StreamStart, pos(0, 1, 1));
    feed(&mut loader, Event::DocumentStart, pos(0, 1, 1));
    feed(&mut loader, Event::StreamEnd, pos(0, 1, 1));
    let err = loader.get_result().unwrap_err();
    assert!(matches!(err, LoaderError::UnexpectedStreamEnd(_)));
}

#[test]
fn error_state_is_sticky() {
    let mut loader = Loader::new();
    feed(&mut loader, Event::StreamStart, pos(0, 1, 1));
    feed(&mut loader, Event::DocumentStart, pos(0, 1, 1));
    feed(&mut loader, Event::Alias(1), pos(2, 1, 3));
    // Well-formed events after the error must change nothing.
    feed(&mut loader, plain("late"), pos(9, 2, 1));
    feed(&mut loader, Event::SequenceStart(0), pos(14, 3, 1));
    feed(&mut loader, Event::SequenceEnd, pos(16, 3, 3));
    feed(&mut loader, Event::DocumentEnd, pos(17, 3, 4));
    feed(&mut loader, Event::StreamEnd, pos(17, 3, 4));
    let err = loader.get_result().unwrap_err();
    assert!(matches!(err, LoaderError::AliasNotSupported(p) if p == pos(2, 1, 3)));
}

#[test]
fn deep_nesting_builds_exact_depth() {
    let depth: usize = 60;
    let mut loader = Loader::new();
    feed(&mut loader, Event::StreamStart, pos(0, 1, 1));
    feed(&mut loader, Event::DocumentStart, pos(0, 1, 1));
    for i in 0..depth {
        feed(&mut loader, Event::SequenceStart(0), pos(i, 1, i + 1));
    }
    feed(&mut loader, plain("core"), pos(depth, 1, depth + 1));
    for i in 0..depth {
        feed(&mut loader, Event::SequenceEnd, pos(depth + 1 + i, 1, depth + 2 + i));
    }
    feed(&mut loader, Event::DocumentEnd, pos(2 * depth + 1, 1, 2 * depth + 2));
    let mut node = loader.get_result().unwrap();
    let mut levels: usize = 0;
    loop {
        match node {
            Node::Sequence(mut s) => {
                assert_eq!(s.value.len(), 1);
                node = s.value.pop().unwrap();
                levels += 1;
            }
            Node::Scalar(s) => {
                assert_eq!(s.value, "core");
                break;
            }
            _ => panic!(),
        }
    }
    assert_eq!(levels, depth);
}

#[test]
fn map_value_may_be_nested_container() {
    let mut loader = Loader::new();
    feed(&mut loader, Event::StreamStart, pos(0, 1, 1));
    feed(&mut loader, Event::DocumentStart, pos(0, 1, 1));
    feed(&mut loader, Event::MappingStart(0), pos(0, 1, 1));
    feed(&mut loader, plain("items"), pos(0, 1, 1));
    feed(&mut loader, Event::SequenceStart(0), pos(8, 2, 3));
    feed(&mut loader, plain("one"), pos(10, 2, 5));
    feed(&mut loader, Event::SequenceEnd, pos(14, 2, 9));
    feed(&mut loader, plain("next"), pos(16, 3, 1));
    feed(&mut loader, plain("2"), pos(22, 3, 7));
    feed(&mut loader, Event::MappingEnd, pos(23, 3, 8));
    feed(&mut loader, Event::DocumentEnd, pos(23, 3, 8));
    let node = loader.get_result().unwrap();
    let map = match node {
        Node::Mapping(m) => m,
        _ => panic!(),
    };
    assert_eq!(map.value.len(), 2);
    assert_eq!(map.value[0].0.value, "items");
    assert!(matches!(&map.value[0].1, Node::Sequence(s) if s.value.len() == 1));
    assert_eq!(map.value[1].0.value, "next");
    assert!(map.contains_key("items"));
    assert!(map.contains_key("next"));
    assert!(!map.contains_key("one"));
}

#[test]
fn same_key_in_sibling_maps_is_allowed() {
    let mut loader = Loader::new();
    feed(&mut loader, Event::StreamStart, pos(0, 1, 1));
    feed(&mut loader, Event::DocumentStart, pos(0, 1, 1));
    feed(&mut loader, Event::SequenceStart(0), pos(0, 1, 1));
    for line in 1..3usize {
        feed(&mut loader, Event::MappingStart(0), pos(0, line, 3));
        feed(&mut loader, plain("k"), pos(0, line, 3));
        feed(&mut loader, plain("v"), pos(0, line, 6));
        feed(&mut loader, Event::MappingEnd, pos(0, line, 7));
    }
    feed(&mut loader, Event::SequenceEnd, pos(0, 3, 1));
    feed(&mut loader, Event::DocumentEnd, pos(0, 3, 1));
    let node = loader.get_result().unwrap();
    let seq = match node {
        Node::Sequence(s) => s,
        _ => panic!(),
    };
    assert_eq!(seq.value.len(), 2);
    for item in &seq.value {
        assert!(matches!(item, Node::Mapping(m) if m.contains_key("k")));
    }
}

#[test]
fn rejected_events_are_detected() {
    let loader = Loader::new();
    // Before the stream starts, only a stream start (or the absorbing
    // events) may arrive.
    assert!(loader.accepts(&Event::StreamStart));
    assert!(!loader.accepts(&Event::DocumentStart));
    assert!(!loader.accepts(&plain("x")));
    assert!(!loader.accepts(&Event::SequenceStart(0)));
    assert!(!loader.accepts(&Event::SequenceEnd));
    assert!(!loader.accepts(&Event::MappingEnd));
    assert!(loader.accepts(&Event::Nothing));
    assert!(loader.accepts(&Event::StreamEnd));
    assert!(loader.accepts(&Event::Alias(1)));
    assert!(!loader.has_result());
}

#[test]
fn lexical_styles_map_onto_node_styles() {
    assert_eq!(ScalarStyle::from_lexical(LexicalStyle::Any), ScalarStyle::Plain);
    assert_eq!(ScalarStyle::from_lexical(LexicalStyle::Plain), ScalarStyle::Plain);
    assert_eq!(
        ScalarStyle::from_lexical(LexicalStyle::SingleQuoted),
        ScalarStyle::SingleQuoted
    );
    assert_eq!(
        ScalarStyle::from_lexical(LexicalStyle::DoubleQuoted),
        ScalarStyle::DoubleQuoted
    );
    assert_eq!(ScalarStyle::from_lexical(LexicalStyle::Literal), ScalarStyle::Literal);
    assert_eq!(ScalarStyle::from_lexical(LexicalStyle::Folded), ScalarStyle::Folded);
}
