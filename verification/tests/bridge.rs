use log_opentelemetry::attributes::Failure;
use log_opentelemetry::bridge::{
    enabled, level_to_severity, Level, LogBridge, Severity, Source, LOGGER_NAME, LOGGER_VERSION,
};
use log_opentelemetry::event::Event;
use log_opentelemetry::position::ProtocolError;
use log_opentelemetry::value::Any;

fn plain(level: Level, message: &str) -> Source {
    Source {
        level,
        message: String::from(message),
        line: None,
        module_static: None,
        module: None,
        file_static: None,
        file: None,
        values: Vec::new(),
    }
}

#[test]
fn each_level_has_its_severity() {
    assert_eq!(level_to_severity(Level::Error), Severity::Error);
    assert_eq!(level_to_severity(Level::Warn), Severity::Warn);
    assert_eq!(level_to_severity(Level::Info), Severity::Info);
    assert_eq!(level_to_severity(Level::Debug), Severity::Debug);
    assert_eq!(level_to_severity(Level::Trace), Severity::Trace);
}

#[test]
fn severity_numbers_are_those_of_the_backend_scale() {
    assert_eq!(Severity::Trace.number(), 1);
    assert_eq!(Severity::Debug.number(), 5);
    assert_eq!(Severity::Info.number(), 9);
    assert_eq!(Severity::Warn.number(), 13);
    assert_eq!(Severity::Error.number(), 17);
}

#[test]
fn warn_lies_strictly_between_info_and_error() {
    let warn = level_to_severity(Level::Warn).number();
    assert!(level_to_severity(Level::Info).number() < warn);
    assert!(warn < level_to_severity(Level::Error).number());
    let bridge = LogBridge::new(());
    let record = bridge.record(plain(Level::Warn, "careful"));
    assert_eq!(record.severity_text, "WARN");
    assert_eq!(record.severity_number, Severity::Warn);
}

#[test]
fn severity_rises_from_trace_to_error() {
    let levels = [Level::Trace, Level::Debug, Level::Info, Level::Warn, Level::Error];
    for pair in levels.windows(2) {
        assert!(level_to_severity(pair[0]).number() < level_to_severity(pair[1]).number());
    }
}

#[test]
fn severity_text_is_the_level_name_in_upper_case() {
    let bridge = LogBridge::new(());
    assert_eq!(bridge.record(plain(Level::Error, "")).severity_text, "ERROR");
    assert_eq!(bridge.record(plain(Level::Warn, "")).severity_text, "WARN");
    assert_eq!(bridge.record(plain(Level::Info, "")).severity_text, "INFO");
    assert_eq!(bridge.record(plain(Level::Debug, "")).severity_text, "DEBUG");
    assert_eq!(bridge.record(plain(Level::Trace, "")).severity_text, "TRACE");
}

#[test]
fn message_becomes_the_body() {
    let bridge = LogBridge::new(());
    let record = bridge.record(plain(Level::Info, "hello, world"));
    assert_eq!(record.body, Any::String(String::from("hello, world")));
    assert!(record.attributes.is_empty());
    assert_eq!(record.event_attributes.len(), 0);
    assert!(record.failures.is_empty());
}

#[test]
fn source_attributes_in_order() {
    let bridge = LogBridge::new(());
    let mut source = plain(Level::Debug, "m");
    source.line = Some(42);
    source.module = Some(String::from("app::db"));
    source.file = Some(String::from("src/db.rs"));
    let record = bridge.record(source);
    assert_eq!(
        record.attributes,
        vec![
            (String::from("code.lineno"), Any::Integer(42)),
            (String::from("code.namespace"), Any::String(String::from("app::db"))),
            (String::from("code.filepath"), Any::String(String::from("src/db.rs"))),
        ]
    );
}

#[test]
fn static_source_values_are_preferred() {
    let bridge = LogBridge::new(());
    let mut source = plain(Level::Debug, "m");
    source.module_static = Some(String::from("static::module"));
    source.module = Some(String::from("dynamic::module"));
    source.file_static = Some(String::from("static.rs"));
    source.file = Some(String::from("dynamic.rs"));
    let record = bridge.record(source);
    assert_eq!(
        record.attributes,
        vec![
            (String::from("code.namespace"), Any::String(String::from("static::module"))),
            (String::from("code.filepath"), Any::String(String::from("static.rs"))),
        ]
    );
}

#[test]
fn absent_source_values_are_left_out() {
    let bridge = LogBridge::new(());
    let mut source = plain(Level::Debug, "m");
    source.file = Some(String::from("only.rs"));
    let record = bridge.record(source);
    assert_eq!(
        record.attributes,
        vec![(String::from("code.filepath"), Any::String(String::from("only.rs")))]
    );
    let mut source = plain(Level::Debug, "m");
    source.line = Some(u32::MAX);
    let record = bridge.record(source);
    assert_eq!(
        record.attributes,
        vec![(String::from("code.lineno"), Any::Integer(4294967295))]
    );
}

#[test]
fn named_values_become_event_attributes() {
    let bridge = LogBridge::new(());
    let mut source = plain(Level::Info, "request done");
    source.values = vec![
        (String::from("retries"), vec![Event::Value(Any::Integer(3))]),
        (String::from("bad"), vec![Event::SeqEnd]),
        (String::from("ok"), vec![Event::Value(Any::Boolean(true))]),
    ];
    let record = bridge.record(source);
    assert_eq!(record.event_attributes.len(), 2);
    assert_eq!(record.event_attributes.get("retries"), Some(&Any::Integer(3)));
    assert_eq!(record.event_attributes.get("ok"), Some(&Any::Boolean(true)));
    assert_eq!(
        record.failures,
        vec![Failure { name: String::from("bad"), error: ProtocolError::SeqEnd }]
    );
    assert_eq!(record.body, Any::String(String::from("request done")));
}

#[test]
fn bridge_hands_back_its_logger() {
    let bridge = LogBridge::new(17u8);
    assert_eq!(*bridge.logger(), 17u8);
}

#[test]
fn bridge_identifies_itself() {
    assert_eq!(LOGGER_NAME, "github.com/vibhavp/log-opentelemetry");
    assert_eq!(LOGGER_VERSION, "0.0.1");
}

#[test]
fn record_passes_only_below_both_limits() {
    assert!(enabled(Level::Error, Some(Level::Error), Some(Level::Trace)));
    assert!(enabled(Level::Info, Some(Level::Info), Some(Level::Info)));
    assert!(enabled(Level::Warn, Some(Level::Trace), Some(Level::Debug)));
    assert!(!enabled(Level::Debug, Some(Level::Info), Some(Level::Trace)));
    assert!(!enabled(Level::Debug, Some(Level::Trace), Some(Level::Info)));
    assert!(!enabled(Level::Trace, Some(Level::Debug), Some(Level::Debug)));
    assert!(!enabled(Level::Error, None, Some(Level::Trace)));
    assert!(!enabled(Level::Error, Some(Level::Trace), None));
    assert!(!enabled(Level::Error, None, None));
}
