use log_opentelemetry::attributes::{collect_attributes, Failure};
use log_opentelemetry::event::Event;
use log_opentelemetry::position::ProtocolError;
use log_opentelemetry::value::{Any, AnyMap};

fn text(s: &str) -> Any {
    Any::String(String::from(s))
}

fn named(name: &str, events: Vec<Event>) -> (String, Vec<Event>) {
    (String::from(name), events)
}

#[test]
fn integer_attribute() {
    let out = collect_attributes(vec![named("retries", vec![Event::Value(Any::Integer(3))])]);
    let mut expected = AnyMap::new();
    expected.insert(String::from("retries"), Any::Integer(3));
    assert_eq!(out.values, expected);
    assert_eq!(out.values.len(), 1);
    assert_eq!(out.values.get("retries"), Some(&Any::Integer(3)));
    assert!(out.failures.is_empty());
}

#[test]
fn list_attribute() {
    let events = vec![
        Event::SeqBegin,
        Event::SeqElem,
        Event::Value(Any::Integer(1)),
        Event::SeqElem,
        Event::Value(Any::Integer(2)),
        Event::SeqElem,
        Event::Value(Any::Integer(3)),
        Event::SeqEnd,
    ];
    let out = collect_attributes(vec![named("ids", events)]);
    assert_eq!(out.values.len(), 1);
    assert_eq!(
        out.values.get("ids"),
        Some(&Any::List(vec![Any::Integer(1), Any::Integer(2), Any::Integer(3)]))
    );
    assert!(out.failures.is_empty());
}

#[test]
fn map_attribute() {
    let events = vec![
        Event::MapBegin,
        Event::MapKey,
        Event::Value(text("env")),
        Event::MapValue,
        Event::Value(text("prod")),
        Event::MapKey,
        Event::Value(text("n")),
        Event::MapValue,
        Event::Value(Any::Integer(5)),
        Event::MapEnd,
    ];
    let out = collect_attributes(vec![named("tags", events)]);
    let mut tags = AnyMap::new();
    tags.insert(String::from("env"), text("prod"));
    tags.insert(String::from("n"), Any::Integer(5));
    assert_eq!(out.values.len(), 1);
    assert_eq!(out.values.get("tags"), Some(&Any::Mapping(tags)));
    assert!(out.failures.is_empty());
}

#[test]
fn broken_stream_is_reported_and_the_others_go_on() {
    let out = collect_attributes(vec![
        named("before", vec![Event::Value(Any::Integer(1))]),
        named("broken", vec![Event::SeqEnd]),
        named("after", vec![Event::Value(Any::Boolean(true))]),
    ]);
    assert_eq!(out.values.len(), 2);
    assert_eq!(out.values.get("before"), Some(&Any::Integer(1)));
    assert_eq!(out.values.get("after"), Some(&Any::Boolean(true)));
    assert_eq!(out.values.get("broken"), None);
    assert_eq!(
        out.failures,
        vec![Failure { name: String::from("broken"), error: ProtocolError::SeqEnd }]
    );
}

#[test]
fn failures_keep_their_order() {
    let out = collect_attributes(vec![
        named("z", vec![Event::MapEnd]),
        named("ok", vec![Event::Value(Any::Integer(0))]),
        named("a", vec![Event::SeqBegin, Event::MapKey]),
    ]);
    assert_eq!(out.values.len(), 1);
    assert_eq!(
        out.failures,
        vec![
            Failure { name: String::from("z"), error: ProtocolError::MapEnd },
            Failure { name: String::from("a"), error: ProtocolError::MapKey },
        ]
    );
}

#[test]
fn stream_that_builds_nothing_gives_no_attribute_and_no_failure() {
    let out = collect_attributes(vec![
        named("open", vec![Event::MapBegin]),
        named("empty", Vec::new()),
        named("half", vec![Event::SeqBegin, Event::SeqElem, Event::Value(Any::Integer(1))]),
    ]);
    assert_eq!(out.values.len(), 0);
    assert!(out.failures.is_empty());
}

#[test]
fn later_attribute_of_the_same_name_wins() {
    let out = collect_attributes(vec![
        named("k", vec![Event::Value(Any::Integer(1))]),
        named("k", vec![Event::Value(Any::Integer(2))]),
    ]);
    assert_eq!(out.values.len(), 1);
    assert_eq!(out.values.get("k"), Some(&Any::Integer(2)));
}

#[test]
fn failed_attribute_does_not_remove_an_earlier_one_of_the_same_name() {
    let out = collect_attributes(vec![
        named("k", vec![Event::Value(Any::Integer(1))]),
        named("k", vec![Event::SeqEnd]),
    ]);
    assert_eq!(out.values.get("k"), Some(&Any::Integer(1)));
    assert_eq!(out.failures.len(), 1);
}

#[test]
fn no_named_values_give_no_attributes() {
    let out = collect_attributes(Vec::new());
    assert_eq!(out.values.len(), 0);
    assert!(out.failures.is_empty());
}
