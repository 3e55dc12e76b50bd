use log_opentelemetry::any_sval::SvalAny;
use log_opentelemetry::event::{build, Event};
use log_opentelemetry::position::ProtocolError;
use log_opentelemetry::value::{Any, AnyMap};

fn text(s: &str) -> Any {
    Any::String(String::from(s))
}

#[test]
fn fresh_builder_has_no_value() {
    let mut builder = SvalAny::new();
    assert_eq!(builder.value(), None);
}

#[test]
fn primitive_at_the_root_is_the_value() {
    let mut builder = SvalAny::new();
    assert_eq!(builder.integer(3), Ok(()));
    assert_eq!(builder.value(), Some(Any::Integer(3)));
}

#[test]
fn value_can_be_taken_once() {
    let mut builder = SvalAny::new();
    assert_eq!(builder.boolean(true), Ok(()));
    assert_eq!(builder.value(), Some(Any::Boolean(true)));
    assert_eq!(builder.value(), None);
}

#[test]
fn second_root_primitive_is_refused() {
    let mut builder = SvalAny::new();
    assert_eq!(builder.integer(1), Ok(()));
    assert_eq!(builder.integer(2), Err(ProtocolError::Primitive));
    assert_eq!(builder.value(), Some(Any::Integer(1)));
}

#[test]
fn each_kind_of_primitive_is_converted() {
    let mut builder = SvalAny::new();
    assert_eq!(builder.seq_begin(Some(6)), Ok(()));
    assert_eq!(builder.seq_elem(), Ok(()));
    assert_eq!(builder.integer(-7), Ok(()));
    assert_eq!(builder.seq_elem(), Ok(()));
    assert_eq!(builder.unsigned(7), Ok(()));
    assert_eq!(builder.seq_elem(), Ok(()));
    assert_eq!(builder.double(2.5f64.to_bits(), String::from("2.5")), Ok(()));
    assert_eq!(builder.seq_elem(), Ok(()));
    assert_eq!(builder.boolean(false), Ok(()));
    assert_eq!(builder.seq_elem(), Ok(()));
    assert_eq!(builder.text("plain"), Ok(()));
    assert_eq!(builder.seq_elem(), Ok(()));
    assert_eq!(builder.fmt(format!("{:?}", (1, 2))), Ok(()));
    assert_eq!(builder.seq_elem(), Ok(()));
    assert_eq!(builder.bytes(vec![1, 2, 3]), Ok(()));
    assert_eq!(builder.seq_end(), Ok(()));
    assert_eq!(
        builder.value(),
        Some(Any::List(vec![
            Any::Integer(-7),
            Any::Integer(7),
            Any::Double { bits: 2.5f64.to_bits(), text: String::from("2.5") },
            Any::Boolean(false),
            text("plain"),
            text("(1, 2)"),
            Any::Bytes(vec![1, 2, 3]),
        ]))
    );
}

#[test]
fn unsigned_above_the_signed_range_wraps() {
    let mut builder = SvalAny::new();
    assert_eq!(builder.unsigned(u64::MAX), Ok(()));
    assert_eq!(builder.value(), Some(Any::Integer(-1)));
    let mut builder = SvalAny::new();
    assert_eq!(builder.unsigned(1u64 << 63), Ok(()));
    assert_eq!(builder.value(), Some(Any::Integer(i64::MIN)));
    let mut builder = SvalAny::new();
    assert_eq!(builder.unsigned(i64::MAX as u64), Ok(()));
    assert_eq!(builder.value(), Some(Any::Integer(i64::MAX)));
    let mut builder = SvalAny::new();
    assert_eq!(builder.unsigned((1u64 << 63) + 5), Ok(()));
    assert_eq!(builder.value(), Some(Any::Integer(((1u64 << 63) + 5) as i64)));
}

#[test]
fn empty_list_and_empty_map() {
    let mut builder = SvalAny::new();
    assert_eq!(builder.seq_begin(None), Ok(()));
    assert_eq!(builder.seq_end(), Ok(()));
    assert_eq!(builder.value(), Some(Any::List(Vec::new())));
    let mut builder = SvalAny::new();
    assert_eq!(builder.map_begin(None), Ok(()));
    assert_eq!(builder.map_end(), Ok(()));
    assert_eq!(builder.value(), Some(Any::Mapping(AnyMap::new())));
}

#[test]
fn open_container_yields_no_value() {
    let mut builder = SvalAny::new();
    assert_eq!(builder.map_begin(None), Ok(()));
    assert_eq!(builder.value(), None);
    let mut builder = SvalAny::new();
    assert_eq!(builder.seq_begin(None), Ok(()));
    assert_eq!(builder.seq_elem(), Ok(()));
    assert_eq!(builder.integer(1), Ok(()));
    assert_eq!(builder.value(), None);
}

#[test]
fn map_with_two_entries() {
    let mut builder = SvalAny::new();
    assert_eq!(builder.map_begin(Some(2)), Ok(()));
    assert_eq!(builder.map_key(), Ok(()));
    assert_eq!(builder.text("env"), Ok(()));
    assert_eq!(builder.map_value(), Ok(()));
    assert_eq!(builder.text("prod"), Ok(()));
    assert_eq!(builder.map_key(), Ok(()));
    assert_eq!(builder.text("n"), Ok(()));
    assert_eq!(builder.map_value(), Ok(()));
    assert_eq!(builder.integer(5), Ok(()));
    assert_eq!(builder.map_end(), Ok(()));
    let mut expected = AnyMap::new();
    expected.insert(String::from("env"), text("prod"));
    expected.insert(String::from("n"), Any::Integer(5));
    assert_eq!(builder.value(), Some(Any::Mapping(expected)));
}

#[test]
fn key_collision_in_a_nested_map_keeps_the_last_value() {
    let events = vec![
        Event::SeqBegin,
        Event::SeqElem,
        Event::MapBegin,
        Event::MapKey,
        Event::Value(text("k")),
        Event::MapValue,
        Event::Value(Any::Integer(1)),
        Event::MapKey,
        Event::Value(text("k")),
        Event::MapValue,
        Event::Value(Any::Integer(2)),
        Event::MapEnd,
        Event::SeqEnd,
    ];
    let mut inner = AnyMap::new();
    inner.insert(String::from("k"), Any::Integer(2));
    assert_eq!(build(events), Ok(Some(Any::List(vec![Any::Mapping(inner)]))));
}

#[test]
fn keys_that_are_not_text_are_rendered() {
    let events = vec![
        Event::MapBegin,
        Event::MapKey,
        Event::Value(Any::Integer(5)),
        Event::MapValue,
        Event::Value(text("five")),
        Event::MapKey,
        Event::Value(Any::Boolean(true)),
        Event::MapValue,
        Event::Value(text("yes")),
        Event::MapKey,
        Event::Value(Any::Bytes(vec![0xDE, 0xAD])),
        Event::MapValue,
        Event::Value(text("bytes")),
        Event::MapEnd,
    ];
    let mut expected = AnyMap::new();
    expected.insert(String::from("5"), text("five"));
    expected.insert(String::from("true"), text("yes"));
    expected.insert(String::from("dead"), text("bytes"));
    assert_eq!(build(events), Ok(Some(Any::Mapping(expected))));
}

#[test]
fn container_as_a_key_is_rendered_when_it_ends() {
    let events = vec![
        Event::MapBegin,
        Event::MapKey,
        Event::SeqBegin,
        Event::SeqElem,
        Event::Value(Any::Integer(1)),
        Event::SeqElem,
        Event::Value(Any::Integer(2)),
        Event::SeqEnd,
        Event::MapValue,
        Event::Value(text("pair")),
        Event::MapEnd,
    ];
    let mut expected = AnyMap::new();
    expected.insert(String::from("[1 2]"), text("pair"));
    assert_eq!(build(events), Ok(Some(Any::Mapping(expected))));
}

#[test]
fn outer_container_keeps_what_it_had_when_an_inner_one_opens() {
    let events = vec![
        Event::SeqBegin,
        Event::SeqElem,
        Event::Value(Any::Integer(1)),
        Event::SeqElem,
        Event::SeqBegin,
        Event::SeqElem,
        Event::Value(Any::Integer(2)),
        Event::SeqEnd,
        Event::SeqElem,
        Event::MapBegin,
        Event::MapKey,
        Event::Value(text("a")),
        Event::MapValue,
        Event::SeqBegin,
        Event::SeqEnd,
        Event::MapEnd,
        Event::SeqElem,
        Event::Value(Any::Integer(3)),
        Event::SeqEnd,
    ];
    let mut map = AnyMap::new();
    map.insert(String::from("a"), Any::List(Vec::new()));
    assert_eq!(
        build(events),
        Ok(Some(Any::List(vec![
            Any::Integer(1),
            Any::List(vec![Any::Integer(2)]),
            Any::Mapping(map),
            Any::Integer(3),
        ])))
    );
}

#[test]
fn nesting_deeper_than_sixteen_levels() {
    let depth = 40;
    let mut events = Vec::new();
    for _ in 0..depth {
        events.push(Event::SeqBegin);
        events.push(Event::SeqElem);
    }
    events.push(Event::Value(Any::Integer(9)));
    for _ in 0..depth {
        events.push(Event::SeqEnd);
    }
    let mut expected = Any::Integer(9);
    for _ in 0..depth {
        expected = Any::List(vec![expected]);
    }
    assert_eq!(build(events), Ok(Some(expected)));
}

#[test]
fn finished_container_handed_over_whole() {
    let events = vec![
        Event::SeqBegin,
        Event::SeqElem,
        Event::Value(Any::List(vec![Any::Integer(1)])),
        Event::SeqEnd,
    ];
    assert_eq!(build(events), Ok(Some(Any::List(vec![Any::List(vec![Any::Integer(1)])]))));
}

#[test]
fn empty_stream_builds_nothing() {
    assert_eq!(build(Vec::new()), Ok(None));
}

#[test]
fn building_twice_gives_equal_trees() {
    let stream = || {
        vec![
            Event::MapBegin,
            Event::MapKey,
            Event::Value(text("b")),
            Event::MapValue,
            Event::SeqBegin,
            Event::SeqElem,
            Event::Value(Any::Integer(1)),
            Event::SeqEnd,
            Event::MapKey,
            Event::Value(text("a")),
            Event::MapValue,
            Event::Value(Any::Boolean(false)),
            Event::MapEnd,
        ]
    };
    let first = build(stream());
    let second = build(stream());
    assert!(matches!(first, Ok(Some(_))));
    assert_eq!(first, second);
}

#[test]
fn seq_end_without_seq_begin_is_refused() {
    let mut builder = SvalAny::new();
    assert_eq!(builder.seq_end(), Err(ProtocolError::SeqEnd));
    assert_eq!(build(vec![Event::SeqEnd]), Err(ProtocolError::SeqEnd));
}

#[test]
fn map_end_without_map_begin_is_refused() {
    assert_eq!(build(vec![Event::MapEnd]), Err(ProtocolError::MapEnd));
}

#[test]
fn map_end_inside_a_sequence_is_refused() {
    assert_eq!(build(vec![Event::SeqBegin, Event::MapEnd]), Err(ProtocolError::MapEnd));
}

#[test]
fn seq_end_inside_a_map_is_refused() {
    assert_eq!(build(vec![Event::MapBegin, Event::SeqEnd]), Err(ProtocolError::SeqEnd));
}

#[test]
fn markers_against_the_wrong_kind_of_frame_are_refused() {
    assert_eq!(build(vec![Event::SeqBegin, Event::MapKey]), Err(ProtocolError::MapKey));
    assert_eq!(build(vec![Event::SeqBegin, Event::MapValue]), Err(ProtocolError::MapValue));
    assert_eq!(build(vec![Event::MapBegin, Event::SeqElem]), Err(ProtocolError::SeqElem));
    assert_eq!(build(vec![Event::MapKey]), Err(ProtocolError::MapKey));
    assert_eq!(build(vec![Event::MapValue]), Err(ProtocolError::MapValue));
    assert_eq!(build(vec![Event::SeqElem]), Err(ProtocolError::SeqElem));
}

#[test]
fn value_marker_before_a_key_is_refused() {
    assert_eq!(build(vec![Event::MapBegin, Event::MapValue]), Err(ProtocolError::MapValue));
    assert_eq!(
        build(vec![Event::MapBegin, Event::MapKey, Event::MapValue]),
        Err(ProtocolError::MapValue)
    );
}

#[test]
fn map_end_in_the_middle_of_an_entry_is_refused() {
    assert_eq!(
        build(vec![Event::MapBegin, Event::MapKey, Event::Value(text("k")), Event::MapEnd]),
        Err(ProtocolError::MapEnd)
    );
}

#[test]
fn primitive_without_a_marker_inside_a_container_is_refused() {
    assert_eq!(
        build(vec![Event::SeqBegin, Event::Value(Any::Integer(1))]),
        Err(ProtocolError::Primitive)
    );
    assert_eq!(
        build(vec![Event::MapBegin, Event::Value(Any::Integer(1))]),
        Err(ProtocolError::Primitive)
    );
}

#[test]
fn container_begun_where_no_value_can_begin_is_refused() {
    assert_eq!(build(vec![Event::SeqBegin, Event::SeqBegin]), Err(ProtocolError::SeqBegin));
    assert_eq!(build(vec![Event::SeqBegin, Event::MapBegin]), Err(ProtocolError::MapBegin));
    assert_eq!(
        build(vec![Event::Value(Any::Integer(1)), Event::MapBegin]),
        Err(ProtocolError::MapBegin)
    );
}

#[test]
fn refused_event_leaves_the_builder_as_it_was() {
    let mut builder = SvalAny::new();
    assert_eq!(builder.seq_begin(None), Ok(()));
    assert_eq!(builder.seq_elem(), Ok(()));
    assert_eq!(builder.integer(1), Ok(()));
    assert_eq!(builder.map_end(), Err(ProtocolError::MapEnd));
    assert_eq!(builder.integer(2), Err(ProtocolError::Primitive));
    assert_eq!(builder.seq_elem(), Ok(()));
    assert_eq!(builder.integer(3), Ok(()));
    assert_eq!(builder.seq_end(), Ok(()));
    assert_eq!(builder.value(), Some(Any::List(vec![Any::Integer(1), Any::Integer(3)])));
}

#[test]
fn feed_takes_events_one_by_one() {
    let mut builder = SvalAny::new();
    assert_eq!(builder.feed(Event::SeqBegin), Ok(()));
    assert_eq!(builder.feed(Event::SeqElem), Ok(()));
    assert_eq!(builder.feed(Event::Value(text("x"))), Ok(()));
    assert_eq!(builder.feed(Event::MapKey), Err(ProtocolError::MapKey));
    assert_eq!(builder.feed(Event::SeqEnd), Ok(()));
    assert_eq!(builder.value(), Some(Any::List(vec![text("x")])));
}
