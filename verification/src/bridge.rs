//! The log bridge: what one log record becomes on its way to the telemetry
//! backend.

use crate::attributes::{
    collect_attributes, collected, failures_view, named_view, rejected, Failure,
};
use crate::event::Event;
use crate::value::{entries_view, Any, AnyMap, Tree};
use opentelemetry_semantic_conventions::trace;
use vstd::prelude::*;
use vstd::string::*;

verus! {

/// The name under which the bridge asks the backend for its logger.
pub const LOGGER_NAME: &'static str = "github.com/vibhavp/log-opentelemetry";

/// The version that the bridge gives the backend with its name.
pub const LOGGER_VERSION: &'static str = "0.0.1";

/// The level of a log record, the most severe first.
#[derive(Clone, Copy, Debug, PartialEq, Eq)]
pub enum Level {
    Error,
    Warn,
    Info,
    Debug,
    Trace,
}

/// The severity of a telemetry record, the least severe first.
#[derive(Clone, Copy, Debug, PartialEq, Eq)]
pub enum Severity {
    Trace,
    Debug,
    Info,
    Warn,
    Error,
}

/// How much a level lets through: more for each step from `Error` to
/// `Trace`.
pub open spec fn verbosity(level: Level) -> int {
    match level {
        Level::Error => 1,
        Level::Warn => 2,
        Level::Info => 3,
        Level::Debug => 4,
        Level::Trace => 5,
    }
}

/// The severity that stands for a level.
pub open spec fn severity_of(level: Level) -> Severity {
    match level {
        Level::Error => Severity::Error,
        Level::Warn => Severity::Warn,
        Level::Info => Severity::Info,
        Level::Debug => Severity::Debug,
        Level::Trace => Severity::Trace,
    }
}

/// The number of a severity on the backend's scale.
pub open spec fn severity_number(severity: Severity) -> int {
    match severity {
        Severity::Trace => 1,
        Severity::Debug => 5,
        Severity::Info => 9,
        Severity::Warn => 13,
        Severity::Error => 17,
    }
}

/// The name of a level, in upper case.
pub open spec fn level_name(level: Level) -> Seq<char> {
    match level {
        Level::Error => seq!['E', 'R', 'R', 'O', 'R'],
        Level::Warn => seq!['W', 'A', 'R', 'N'],
        Level::Info => seq!['I', 'N', 'F', 'O'],
        Level::Debug => seq!['D', 'E', 'B', 'U', 'G'],
        Level::Trace => seq!['T', 'R', 'A', 'C', 'E'],
    }
}

/// The key of the attribute that holds the line number.
pub open spec fn code_lineno_key() -> Seq<char> {
    "code.lineno"@
}

/// The key of the attribute that holds the module path.
pub open spec fn code_namespace_key() -> Seq<char> {
    "code.namespace"@
}

/// The key of the attribute that holds the file path.
pub open spec fn code_filepath_key() -> Seq<char> {
    "code.filepath"@
}

/// `log::Level::as_str`: the name of the level, in upper case.
#[verifier::external_body]
fn level_text(level: Level) -> (name: &'static str)
    ensures
        name@ == level_name(level),
{
    let level = match level {
        Level::Error => log::Level::Error,
        Level::Warn => log::Level::Warn,
        Level::Info => log::Level::Info,
        Level::Debug => log::Level::Debug,
        Level::Trace => log::Level::Trace,
    };
    level.as_str()
}

/// `opentelemetry_semantic_conventions::trace::CODE_LINENO`: the key
/// `code.lineno`.
#[verifier::external_body]
fn code_lineno() -> (key: String)
    ensures
        key@ == code_lineno_key(),
{
    trace::CODE_LINENO.as_str().to_string()
}

/// `opentelemetry_semantic_conventions::trace::CODE_NAMESPACE`: the key
/// `code.namespace`.
#[verifier::external_body]
fn code_namespace() -> (key: String)
    ensures
        key@ == code_namespace_key(),
{
    trace::CODE_NAMESPACE.as_str().to_string()
}

/// `opentelemetry_semantic_conventions::trace::CODE_FILEPATH`: the key
/// `code.filepath`.
#[verifier::external_body]
fn code_filepath() -> (key: String)
    ensures
        key@ == code_filepath_key(),
{
    trace::CODE_FILEPATH.as_str().to_string()
}

/// The severity that stands for a level.
pub fn level_to_severity(level: Level) -> (severity: Severity)
    ensures
        severity == severity_of(level),
{
    match level {
        Level::Error => Severity::Error,
        Level::Warn => Severity::Warn,
        Level::Info => Severity::Info,
        Level::Debug => Severity::Debug,
        Level::Trace => Severity::Trace,
    }
}

impl Severity {
    /// The number of the severity on the backend's scale.
    pub fn number(self) -> (n: u8)
        ensures
            n == severity_number(self),
    {
        match self {
            Severity::Trace => 1,
            Severity::Debug => 5,
            Severity::Info => 9,
            Severity::Warn => 13,
            Severity::Error => 17,
        }
    }
}

/// The more severe of two levels has the higher severity number, and no two
/// levels share one.
pub proof fn lemma_severity_monotonic(a: Level, b: Level)
    ensures
        verbosity(a) < verbosity(b) <==> severity_number(severity_of(a)) > severity_number(
            severity_of(b),
        ),
        a != b ==> severity_number(severity_of(a)) != severity_number(severity_of(b)),
{
}

/// Whether a record of `level` passes both limits. A limit of `None` lets
/// nothing through.
pub fn enabled(level: Level, max_level: Option<Level>, static_max_level: Option<Level>) -> (r:
    bool)
    ensures
        r == (max_level is Some && static_max_level is Some && verbosity(level) <= verbosity(
            max_level->0,
        ) && verbosity(level) <= verbosity(static_max_level->0)),
{
    match (max_level, static_max_level) {
        (Some(max), Some(static_max)) => {
            let v = rank(level);
            v <= rank(max) && v <= rank(static_max)
        },
        _ => false,
    }
}

fn rank(level: Level) -> (v: u8)
    ensures
        v == verbosity(level),
{
    match level {
        Level::Error => 1,
        Level::Warn => 2,
        Level::Info => 3,
        Level::Debug => 4,
        Level::Trace => 5,
    }
}

/// What the bridge reads of one log record.
#[derive(Debug, PartialEq, Eq)]
pub struct Source {
    pub level: Level,
    /// The message, as text.
    pub message: String,
    pub line: Option<u32>,
    /// The module path where it is known statically.
    pub module_static: Option<String>,
    /// The module path as it was captured at run time.
    pub module: Option<String>,
    /// The file where it is known statically.
    pub file_static: Option<String>,
    /// The file as it was captured at run time.
    pub file: Option<String>,
    /// The named values, each as the events of its stream.
    pub values: Vec<(String, Vec<Event>)>,
}

/// What the bridge hands to the backend for one log record.
#[derive(Debug, PartialEq, Eq)]
pub struct LogRecord {
    pub severity_number: Severity,
    pub severity_text: String,
    pub body: Any,
    /// Where the record was made: line, module path and file, each only
    /// where the record has it.
    pub attributes: Vec<(String, Any)>,
    /// The named values that were built.
    pub event_attributes: AnyMap,
    /// The named values that were not.
    pub failures: Vec<Failure>,
}

/// The model of a piece of text that may be absent.
pub open spec fn text_view(text: Option<String>) -> Option<Seq<char>> {
    match text {
        Some(t) => Some(t@),
        None => None,
    }
}

/// Of two forms of one piece of text, the one that is known statically
/// where there is one.
pub open spec fn preferred(statically: Option<Seq<char>>, dynamically: Option<Seq<char>>) -> Option<
    Seq<char>,
> {
    if statically is Some {
        statically
    } else {
        dynamically
    }
}

/// One attribute that holds text, or none.
pub open spec fn text_attribute(key: Seq<char>, text: Option<Seq<char>>) -> Seq<(Seq<char>, Tree)> {
    match text {
        Some(t) => seq![(key, Tree::String(t))],
        None => Seq::empty(),
    }
}

/// The attributes that say where a record was made, in the order line,
/// module path, file.
pub open spec fn source_attributes(
    line: Option<u32>,
    module: Option<Seq<char>>,
    file: Option<Seq<char>>,
) -> Seq<(Seq<char>, Tree)> {
    let first: Seq<(Seq<char>, Tree)> = match line {
        Some(n) => seq![(code_lineno_key(), Tree::Integer(n as i64))],
        None => Seq::empty(),
    };
    first + text_attribute(code_namespace_key(), module) + text_attribute(
        code_filepath_key(),
        file,
    )
}

fn prefer(statically: Option<String>, dynamically: Option<String>) -> (r: Option<String>)
    ensures
        text_view(r) == preferred(text_view(statically), text_view(dynamically)),
{
    match statically {
        Some(text) => Some(text),
        None => dynamically,
    }
}

/// Bridges log records to a logger of the telemetry backend.
pub struct LogBridge<L> {
    logger: L,
}

impl<L> LogBridge<L> {
    /// The logger that the bridge hands its records to.
    pub closed spec fn backend(&self) -> L {
        self.logger
    }

    /// A bridge to `logger`.
    pub fn new(logger: L) -> (bridge: Self)
        ensures
            bridge.backend() == logger,
    {
        LogBridge { logger }
    }

    /// The logger that the bridge hands its records to.
    pub fn logger(&self) -> (logger: &L)
        ensures
            *logger == self.backend(),
    {
        &self.logger
    }

    /// The telemetry record for one log record: the severity that stands
    /// for its level, the level's name, the message as the body, where the
    /// record was made, and what its named values build.
    pub fn record(&self, source: Source) -> (out: LogRecord)
        ensures
            out.severity_number == severity_of(source.level),
            out.severity_text@ == level_name(source.level),
            out.body@ == Tree::String(source.message@),
            entries_view(out.attributes@) == source_attributes(
                source.line,
                preferred(text_view(source.module_static), text_view(source.module)),
                preferred(text_view(source.file_static), text_view(source.file)),
            ),
            out.event_attributes@ == collected(named_view(source.values@), source.values@.len()),
            failures_view(out.failures@) == rejected(
                named_view(source.values@),
                source.values@.len(),
            ),
    {
        let Source {
            level,
            message,
            line,
            module_static,
            module,
            file_static,
            file,
            values,
        } = source;
        let mut attributes: Vec<(String, Any)> = Vec::new();
        match line {
            Some(n) => {
                attributes.push((code_lineno(), Any::Integer(n as i64)));
            },
            None => {},
        }
        match prefer(module_static, module) {
            Some(path) => {
                attributes.push((code_namespace(), Any::String(path)));
            },
            None => {},
        }
        match prefer(file_static, file) {
            Some(path) => {
                attributes.push((code_filepath(), Any::String(path)));
            },
            None => {},
        }
        assert(entries_view(attributes@) =~= source_attributes(
            line,
            preferred(text_view(module_static), text_view(module)),
            preferred(text_view(file_static), text_view(file)),
        ));
        let built = collect_attributes(values);
        LogRecord {
            severity_number: level_to_severity(level),
            severity_text: String::from_str(level_text(level)),
            body: Any::String(message),
            attributes,
            event_attributes: built.values,
            failures: built.failures,
        }
    }
}

} // verus!
