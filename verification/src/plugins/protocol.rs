//! The line protocol between the engine and plugin processes: the events a
//! plugin prints, one JSON object per line, and what the engine does with
//! each; and which plugin bundles the engine accepts.
//!
//! A oneshot plugin prints `{"type":"log","level":..,"message":..}` lines
//! and ends with `{"type":"result","value":..}` or
//! `{"type":"error","message":..,"retryable":..}`. A persistent plugin first
//! prints `{"type":"ready"}`, then the same events tagged with the `id` of
//! the request they belong to.

use vstd::prelude::*;
use crate::json::{get_key, json_parse, json_parse_bytes, json_view, lemma_items_view, items_view, parse_json, parse_json_bytes, Json, JsonView, Number, NumberView};
use crate::plugins::{level_named, log_level, LogLevel, TaskError};
use crate::plugins::http::ascii_lower;
use crate::text::{decimal_i64, lossy_text, push_str, signed_decimal, split_bytes, split_on, str_eq, string_of, trim_chars, trimmed, utf8_lossy};

verus! {

/// The highest `schema_version` of a `plugin.json` this engine reads.
pub const SUPPORTED_SCHEMA_VERSION: u32 = 1;

/// One event of a plugin's run, as the engine acts on it.
#[derive(Debug)]
pub enum PluginEvent {
    /// A log line of the task.
    Log(LogLevel, String),
    /// The task's result; the run of the task is over.
    Result(Json),
    /// The task's error; the run of the task is over.
    Error(TaskError),
}

/// What a [`PluginEvent`] says.
pub enum EventView {
    Log(LogLevel, Seq<char>),
    Result(JsonView),
    Error(Seq<char>, bool),
}

pub open spec fn event_view(e: PluginEvent) -> EventView {
    match e {
        PluginEvent::Log(l, m) => EventView::Log(l, m@),
        PluginEvent::Result(v) => EventView::Result(json_view(v)),
        PluginEvent::Error(t) => EventView::Error(t.message@, t.retryable),
    }
}

/// An optional string field: absent reads as empty; anything but a string
/// does not read.
pub open spec fn text_or_empty(v: Option<JsonView>) -> Option<Seq<char>> {
    match v {
        None => Some(Seq::empty()),
        Some(JsonView::String(s)) => Some(s),
        Some(_) => None,
    }
}

/// An optional flag: absent reads as false; anything but a bool does not
/// read.
pub open spec fn flag_or_false(v: Option<JsonView>) -> Option<bool> {
    match v {
        None => Some(false),
        Some(JsonView::Bool(b)) => Some(b),
        Some(_) => None,
    }
}

/// An optional value: absent reads as `null`.
pub open spec fn or_null(v: Option<JsonView>) -> JsonView {
    match v {
        None => JsonView::Null,
        Some(x) => x,
    }
}

/// A request id: a whole number that fits `u64`.
pub open spec fn request_id(v: Option<JsonView>) -> Option<u64> {
    match v {
        Some(JsonView::Number(NumberView::Int(n))) => if 0 <= n <= u64::MAX {
            Some(n as u64)
        } else {
            None
        },
        _ => None,
    }
}

/// The event's `type`, when it is a string.
pub open spec fn event_type(v: JsonView) -> Option<Seq<char>> {
    match get_key(v, "type"@) {
        Some(JsonView::String(t)) => Some(t),
        _ => None,
    }
}

/// A oneshot plugin's level names.
pub open spec fn event_level(name: Seq<char>) -> Option<LogLevel> {
    if name == "info"@ {
        Some(LogLevel::Info)
    } else if name == "ok"@ {
        Some(LogLevel::Success)
    } else if name == "warn"@ {
        Some(LogLevel::Warn)
    } else if name == "err"@ {
        Some(LogLevel::Error)
    } else if name == "dbg"@ {
        Some(LogLevel::Dbg)
    } else {
        None
    }
}

/// A oneshot plugin names each level by the small-letter form of the tag a
/// run view shows for it (`info`, `ok`, `warn`, `err`, `dbg`), and by
/// nothing else: each name stands for one level and each level has one
/// name. Where the persistent protocol reads the same name, it reads the
/// same level.
pub proof fn lemma_event_level_names(name: Seq<char>, level: LogLevel)
    ensures
        event_level(name) == Some(level) <==> name == ascii_lower(level.tag()),
        event_level(name) == Some(level) ==> level_named(name) == level,
{
    reveal_strlit("info");
    reveal_strlit("ok");
    reveal_strlit("warn");
    reveal_strlit("err");
    reveal_strlit("dbg");
    reveal_strlit("INFO");
    reveal_strlit("OK");
    reveal_strlit("WARN");
    reveal_strlit("ERR");
    reveal_strlit("DBG");
    assert(ascii_lower("INFO"@) =~= "info"@);
    assert(ascii_lower("OK"@) =~= "ok"@);
    assert(ascii_lower("WARN"@) =~= "warn"@);
    assert(ascii_lower("ERR"@) =~= "err"@);
    assert(ascii_lower("DBG"@) =~= "dbg"@);
    assert("info"@[0] != "warn"@[0] && "err"@[0] != "dbg"@[0]);
    assert("info"@ != "ok"@ && "info"@ != "warn"@ && "info"@ != "err"@ && "info"@ != "dbg"@);
    assert("ok"@ != "warn"@ && "ok"@ != "err"@ && "ok"@ != "dbg"@);
    assert("warn"@ != "err"@ && "warn"@ != "dbg"@ && "err"@ != "dbg"@);
    match level {
        LogLevel::Info => assert(level.tag() == "INFO"@),
        LogLevel::Success => assert(level.tag() == "OK"@),
        LogLevel::Warn => assert(level.tag() == "WARN"@),
        LogLevel::Error => assert(level.tag() == "ERR"@),
        LogLevel::Dbg => assert(level.tag() == "DBG"@),
    }
}

/// A log line a oneshot plugin prints is read at the level whose tag, in
/// small letters, the line names.
pub proof fn lemma_oneshot_log_level(v: JsonView, level: LogLevel, m: Seq<char>)
    requires
        oneshot_event(v) == Some(EventView::Log(level, m)),
    ensures
        get_key(v, "level"@) == Some(JsonView::String(ascii_lower(level.tag()))),
{
    let l = get_key(v, "level"@)->Some_0->String_0;
    lemma_event_level_names(l, level);
}

/// The error event in an object: a string `message`, and `retryable` when
/// given.
pub open spec fn error_event(v: JsonView) -> Option<EventView> {
    match (get_key(v, "message"@), flag_or_false(get_key(v, "retryable"@))) {
        (Some(JsonView::String(m)), Some(r)) => Some(EventView::Error(m, r)),
        _ => None,
    }
}

/// The event a oneshot plugin's line holds: a `log` with a known `level`
/// and an optional string `message`, a `result` with an optional `value`,
/// or an `error`. Other members are ignored.
pub open spec fn oneshot_event(v: JsonView) -> Option<EventView> {
    match event_type(v) {
        Some(t) => if t == "log"@ {
            match (get_key(v, "level"@), text_or_empty(get_key(v, "message"@))) {
                (Some(JsonView::String(l)), Some(m)) => match event_level(l) {
                    Some(level) => Some(EventView::Log(level, m)),
                    None => None,
                },
                _ => None,
            }
        } else if t == "result"@ {
            Some(EventView::Result(or_null(get_key(v, "value"@))))
        } else if t == "error"@ {
            error_event(v)
        } else {
            None
        },
        None => None,
    }
}

/// A persistent plugin's line: the handshake, or an event for a request.
pub enum WireView {
    Ready,
    Tagged(u64, EventView),
}

/// The event a persistent plugin's line holds: `ready`, or a `log`,
/// `result` or `error` with the request's `id`. A log's `level` is any
/// string (unknown names log as info) and may be left out.
pub open spec fn wire_event(v: JsonView) -> Option<WireView> {
    match event_type(v) {
        Some(t) => if t == "ready"@ {
            Some(WireView::Ready)
        } else if t == "log"@ || t == "result"@ || t == "error"@ {
            match request_id(get_key(v, "id"@)) {
                Some(id) => if t == "log"@ {
                    match (text_or_empty(get_key(v, "level"@)), text_or_empty(get_key(v, "message"@))) {
                        (Some(l), Some(m)) => Some(WireView::Tagged(id, EventView::Log(level_named(l), m))),
                        _ => None,
                    }
                } else if t == "result"@ {
                    Some(WireView::Tagged(id, EventView::Result(or_null(get_key(v, "value"@)))))
                } else {
                    match error_event(v) {
                        Some(e) => Some(WireView::Tagged(id, e)),
                        None => None,
                    }
                },
                None => None,
            }
        } else {
            None
        },
        None => None,
    }
}

/// What the engine does with one line of a oneshot plugin's output.
#[derive(Debug)]
pub enum LineStep {
    /// A blank line: nothing.
    Skip,
    /// An event to act on.
    Event(PluginEvent),
    /// Output that breaks the protocol: the process is killed and the task
    /// fails with this error.
    Violation(TaskError),
}

pub enum LineView {
    Skip,
    Event(EventView),
    Violation(Seq<char>, bool),
}

pub open spec fn line_view(s: LineStep) -> LineView {
    match s {
        LineStep::Skip => LineView::Skip,
        LineStep::Event(e) => LineView::Event(event_view(e)),
        LineStep::Violation(t) => LineView::Violation(t.message@, t.retryable),
    }
}

/// The fatal error of a line that breaks the protocol, with what is wrong.
pub open spec fn violation(reason: Seq<char>) -> LineView {
    LineView::Violation("plugin protocol error: could not parse output line: "@ + reason, false)
}

/// What a oneshot plugin's output line means: blank lines are skipped; the
/// rest must be a JSON event.
pub open spec fn oneshot_line_step(line: Seq<char>) -> LineView {
    if trimmed(line).len() == 0 {
        LineView::Skip
    } else {
        match json_parse(line) {
            None => violation("not JSON"@),
            Some(v) => match oneshot_event(v) {
                Some(e) => LineView::Event(e),
                None => violation("not a plugin event"@),
            },
        }
    }
}

/// Where a persistent plugin's output line goes.
#[derive(Debug)]
pub enum Routed {
    /// A blank line: nothing.
    Skip,
    /// The handshake: the plugin is ready for requests.
    Ready,
    /// An event for the request with this id.
    Deliver(u64, PluginEvent),
    /// Output that cannot be framed: the process is taken for dead.
    Dead,
}

pub enum RoutedView {
    Skip,
    Ready,
    Deliver(u64, EventView),
    Dead,
}

pub open spec fn routed_view(r: Routed) -> RoutedView {
    match r {
        Routed::Skip => RoutedView::Skip,
        Routed::Ready => RoutedView::Ready,
        Routed::Deliver(id, e) => RoutedView::Deliver(id, event_view(e)),
        Routed::Dead => RoutedView::Dead,
    }
}

/// Where a persistent plugin's output line goes: the line is trimmed;
/// blank lines are skipped; anything that is not a protocol event means the
/// stream cannot be trusted.
pub open spec fn route_of(line: Seq<char>) -> RoutedView {
    let t = trimmed(line);
    if t.len() == 0 {
        RoutedView::Skip
    } else {
        match json_parse(t) {
            None => RoutedView::Dead,
            Some(v) => match wire_event(v) {
                None => RoutedView::Dead,
                Some(WireView::Ready) => RoutedView::Ready,
                Some(WireView::Tagged(id, e)) => RoutedView::Deliver(id, e),
            },
        }
    }
}

/// An optional string member.
fn text_field(v: &Json, key: &str) -> (r: Option<String>)
    ensures
        match r {
            Some(s) => text_or_empty(get_key(json_view(*v), key@)) == Some(s@),
            None => text_or_empty(get_key(json_view(*v), key@)) is None,
        },
{
    match v.get_key(key) {
        None => Some(String::new()),
        Some(Json::String(s)) => Some(s.clone()),
        Some(_) => None,
    }
}

/// An optional flag member.
fn flag_field(v: &Json, key: &str) -> (r: Option<bool>)
    ensures
        r == flag_or_false(get_key(json_view(*v), key@)),
{
    match v.get_key(key) {
        None => Some(false),
        Some(Json::Bool(b)) => Some(*b),
        Some(_) => None,
    }
}

/// An optional value member.
fn value_field(v: &Json, key: &str) -> (r: Json)
    ensures
        json_view(r) == or_null(get_key(json_view(*v), key@)),
{
    match v.get_key(key) {
        None => Json::Null,
        Some(x) => x.copy(),
    }
}

/// The `id` member.
fn id_field(v: &Json) -> (r: Option<u64>)
    ensures
        r == request_id(get_key(json_view(*v), "id"@)),
{
    match v.get_key("id") {
        Some(Json::Number(Number::PosInt(n))) => Some(*n),
        Some(Json::Number(Number::NegInt(n))) => if *n >= 0 {
            Some(*n as u64)
        } else {
            None
        },
        _ => None,
    }
}

/// The `type` member, when a string.
fn type_field(v: &Json) -> (r: Option<&String>)
    ensures
        match r {
            Some(t) => event_type(json_view(*v)) == Some(t@),
            None => event_type(json_view(*v)) is None,
        },
{
    match v.get_key("type") {
        Some(Json::String(t)) => Some(t),
        _ => None,
    }
}

/// A oneshot level name.
fn level_field(name: &str) -> (r: Option<LogLevel>)
    ensures
        r == event_level(name@),
{
    if str_eq(name, "info") {
        Some(LogLevel::Info)
    } else if str_eq(name, "ok") {
        Some(LogLevel::Success)
    } else if str_eq(name, "warn") {
        Some(LogLevel::Warn)
    } else if str_eq(name, "err") {
        Some(LogLevel::Error)
    } else if str_eq(name, "dbg") {
        Some(LogLevel::Dbg)
    } else {
        None
    }
}

/// The error event in an object.
fn read_error(v: &Json) -> (r: Option<PluginEvent>)
    ensures
        match r {
            Some(e) => error_event(json_view(*v)) == Some(event_view(e)),
            None => error_event(json_view(*v)) is None,
        },
{
    let retryable = flag_field(v, "retryable");
    match (v.get_key("message"), retryable) {
        (Some(Json::String(m)), Some(r)) => Some(PluginEvent::Error(TaskError { message: m.clone(), retryable: r })),
        _ => None,
    }
}

/// Reads the event a oneshot plugin printed.
pub fn read_oneshot_event(v: &Json) -> (r: Option<PluginEvent>)
    ensures
        match r {
            Some(e) => oneshot_event(json_view(*v)) == Some(event_view(e)),
            None => oneshot_event(json_view(*v)) is None,
        },
{
    let t = match type_field(v) {
        Some(t) => t,
        None => return None,
    };
    if str_eq(t.as_str(), "log") {
        let message = text_field(v, "message");
        match (v.get_key("level"), message) {
            (Some(Json::String(l)), Some(m)) => match level_field(l.as_str()) {
                Some(level) => Some(PluginEvent::Log(level, m)),
                None => None,
            },
            _ => None,
        }
    } else if str_eq(t.as_str(), "result") {
        Some(PluginEvent::Result(value_field(v, "value")))
    } else if str_eq(t.as_str(), "error") {
        read_error(v)
    } else {
        None
    }
}

/// A protocol violation with what is wrong.
fn violation_error(reason: &str) -> (e: TaskError)
    ensures
        LineView::Violation(e.message@, e.retryable) == violation(reason@),
{
    let mut m = "plugin protocol error: could not parse output line: ".to_owned();
    crate::text::push_str(&mut m, reason);
    TaskError::fatal(m)
}

/// What the engine does with one line a oneshot plugin printed.
pub fn oneshot_line(line: &str) -> (r: LineStep)
    ensures
        line_view(r) == oneshot_line_step(line@),
{
    if trim_chars(line).len() == 0 {
        return LineStep::Skip;
    }
    match parse_json(line) {
        None => LineStep::Violation(violation_error("not JSON")),
        Some(v) => match read_oneshot_event(&v) {
            Some(e) => LineStep::Event(e),
            None => LineStep::Violation(violation_error("not a plugin event")),
        },
    }
}

/// Reads the event a persistent plugin printed.
pub fn read_wire_event(v: &Json) -> (r: Option<Routed>)
    ensures
        match r {
            Some(Routed::Ready) => wire_event(json_view(*v)) == Some(WireView::Ready),
            Some(Routed::Deliver(id, e)) => wire_event(json_view(*v)) == Some(WireView::Tagged(id, event_view(e))),
            Some(_) => false,
            None => wire_event(json_view(*v)) is None,
        },
{
    let t = match type_field(v) {
        Some(t) => t,
        None => return None,
    };
    if str_eq(t.as_str(), "ready") {
        return Some(Routed::Ready);
    }
    let is_log = str_eq(t.as_str(), "log");
    let is_result = str_eq(t.as_str(), "result");
    let is_error = str_eq(t.as_str(), "error");
    if !(is_log || is_result || is_error) {
        return None;
    }
    let id = match id_field(v) {
        Some(id) => id,
        None => return None,
    };
    if is_log {
        match (text_field(v, "level"), text_field(v, "message")) {
            (Some(l), Some(m)) => Some(Routed::Deliver(id, PluginEvent::Log(log_level(l.as_str()), m))),
            _ => None,
        }
    } else if is_result {
        Some(Routed::Deliver(id, PluginEvent::Result(value_field(v, "value"))))
    } else {
        match read_error(v) {
            Some(e) => Some(Routed::Deliver(id, e)),
            None => None,
        }
    }
}

/// Where a line a persistent plugin printed goes.
pub fn route_line(line: &str) -> (r: Routed)
    ensures
        routed_view(r) == route_of(line@),
{
    let t = trim_chars(line);
    if t.len() == 0 {
        return Routed::Skip;
    }
    let text = string_of(&t);
    match parse_json(text.as_str()) {
        None => Routed::Dead,
        Some(v) => match read_wire_event(&v) {
            Some(r) => r,
            None => Routed::Dead,
        },
    }
}


/// What happens to a request a persistent plugin is serving.
#[derive(Debug)]
pub enum RequestInput {
    /// The task was canceled.
    Cancel,
    /// The grace after a cancel ran out without an answer.
    GraceOver,
    /// The plugin sent an event for this request.
    Event(PluginEvent),
    /// The plugin's output ended: the process is gone.
    Closed,
}

/// What the engine does about it.
#[derive(Debug)]
pub enum RequestAction {
    /// Write `{"id":..,"mode":"cancel"}` to the plugin and start the grace.
    SendCancel,
    /// Log a line of the task.
    Log(LogLevel, String),
    /// The request is over, with this outcome.
    Finish(Result<Json, TaskError>),
    /// Kill the whole process; the request is over, with this error.
    Teardown(TaskError),
    /// Nothing.
    Ignore,
}

/// One step of a request a persistent plugin is serving, from whether a
/// cancel was already sent: the first cancel is passed on to the plugin
/// and starts a grace; a plugin that lets the grace run out is killed and
/// the request fails as canceled; the plugin's events log or end the
/// request; a process that goes away ends it, worth a retry.
pub fn request_step(canceled: bool, input: RequestInput) -> (r: (bool, RequestAction))
    ensures
        match input {
            RequestInput::Cancel => r.0 && if canceled { r.1 is Ignore } else { r.1 is SendCancel },
            RequestInput::GraceOver => r.0 == canceled && if canceled {
                r.1 matches RequestAction::Teardown(e) && e.message@ == "canceled"@ && !e.retryable
            } else {
                r.1 is Ignore
            },
            RequestInput::Event(PluginEvent::Log(l, m)) => r.0 == canceled
                && (r.1 matches RequestAction::Log(l2, m2) && l2 == l && m2@ == m@),
            RequestInput::Event(PluginEvent::Result(v)) => r.0 == canceled
                && (r.1 matches RequestAction::Finish(Ok(x)) && json_view(x) == json_view(v)),
            RequestInput::Event(PluginEvent::Error(e)) => r.0 == canceled
                && (r.1 matches RequestAction::Finish(Err(x)) && x.message@ == e.message@ && x.retryable == e.retryable),
            RequestInput::Closed => r.0 == canceled
                && (r.1 matches RequestAction::Finish(Err(x)) && x.message@ == "plugin process ended"@ && x.retryable),
        },
{
    match input {
        RequestInput::Cancel => if canceled {
            (true, RequestAction::Ignore)
        } else {
            (true, RequestAction::SendCancel)
        },
        RequestInput::GraceOver => if canceled {
            (true, RequestAction::Teardown(TaskError::fatal("canceled".to_owned())))
        } else {
            (false, RequestAction::Ignore)
        },
        RequestInput::Event(PluginEvent::Log(l, m)) => (canceled, RequestAction::Log(l, m)),
        RequestInput::Event(PluginEvent::Result(v)) => (canceled, RequestAction::Finish(Ok(v))),
        RequestInput::Event(PluginEvent::Error(e)) => (canceled, RequestAction::Finish(Err(e))),
        RequestInput::Closed => (canceled, RequestAction::Finish(Err(TaskError::retryable("plugin process ended".to_owned())))),
    }
}

/// The error of a request whose plugin could not be started.
pub fn start_failed(reason: &str) -> (e: TaskError)
    ensures
        e.message@ == "plugin start failed: "@ + reason@,
        e.retryable,
{
    let mut m = "plugin start failed: ".to_owned();
    crate::text::push_str(&mut m, reason);
    TaskError::retryable(m)
}

/// Whether a plugin bundle is taken, and if not, why.
#[derive(Debug, Clone, Copy, PartialEq, Eq, Structural)]
pub enum BundleCheck {
    /// The bundle is loaded.
    Accept,
    /// Its `schema_version` is newer than this engine reads.
    UnsupportedVersion,
    /// Its entrypoint is not a file in the bundle.
    MissingEntrypoint,
}

/// Checks a parsed bundle: its schema version must be one this engine
/// reads, and its entrypoint must exist.
pub fn bundle_check(schema_version: u32, entrypoint_is_file: bool) -> (r: BundleCheck)
    ensures
        schema_version > SUPPORTED_SCHEMA_VERSION ==> r == BundleCheck::UnsupportedVersion,
        schema_version <= SUPPORTED_SCHEMA_VERSION && !entrypoint_is_file ==> r == BundleCheck::MissingEntrypoint,
        schema_version <= SUPPORTED_SCHEMA_VERSION && entrypoint_is_file ==> r == BundleCheck::Accept,
{
    if schema_version > SUPPORTED_SCHEMA_VERSION {
        BundleCheck::UnsupportedVersion
    } else if !entrypoint_is_file {
        BundleCheck::MissingEntrypoint
    } else {
        BundleCheck::Accept
    }
}


/// The strings of a JSON array, when every item is one.
pub open spec fn string_items(items: Seq<JsonView>) -> Option<Seq<Seq<char>>>
    decreases items.len(),
{
    if items.len() == 0 {
        Some(Seq::empty())
    } else {
        match (string_items(items.drop_last()), items.last()) {
            (Some(done), JsonView::String(s)) => Some(done.push(s)),
            _ => None,
        }
    }
}

/// An array whose first items are not all strings is not all strings.
proof fn lemma_string_items_prefix(items: Seq<JsonView>, j: int)
    requires
        0 <= j <= items.len(),
        string_items(items.take(j)) is None,
    ensures
        string_items(items) is None,
    decreases items.len() - j,
{
    if j < items.len() {
        assert(items.take(j + 1).drop_last() =~= items.take(j));
        lemma_string_items_prefix(items, j + 1);
    } else {
        assert(items.take(j) =~= items);
    }
}

/// The problems a plugin's `validate` call reports:
/// `{"type":"validation","errors":[..]}`, the errors strings, left out when
/// there are none.
pub open spec fn validation_event(v: JsonView) -> Option<Seq<Seq<char>>> {
    match event_type(v) {
        Some(t) => if t == "validation"@ {
            match get_key(v, "errors"@) {
                None => Some(Seq::empty()),
                Some(JsonView::Array(items)) => string_items(items),
                Some(_) => None,
            }
        } else {
            None
        },
        None => None,
    }
}

/// The problems of the first output line that is a validation event;
/// empty lines and other lines are passed over.
pub open spec fn first_validation(lines: Seq<Seq<u8>>) -> Option<Seq<Seq<char>>>
    decreases lines.len(),
{
    if lines.len() == 0 {
        None
    } else if lines[0].len() > 0 && json_parse_bytes(lines[0]) is Some
        && validation_event(json_parse_bytes(lines[0])->0) is Some {
        validation_event(json_parse_bytes(lines[0])->0)
    } else {
        first_validation(lines.drop_first())
    }
}

/// An exit code as `{:?}` writes an `Option<i32>`.
pub open spec fn status_debug(code: Option<i32>) -> Seq<char> {
    match code {
        Some(c) => "Some("@ + signed_decimal(c as int) + ")"@,
        None => "None"@,
    }
}

/// What a plugin's `validate` call comes to, from its output, exit code
/// and stderr: the problems it reported, or why there are none to read.
pub open spec fn validation_outcome(stdout: Seq<u8>, status: Option<i32>, stderr: Seq<u8>) -> Result<Seq<Seq<char>>, Seq<char>> {
    match first_validation(split_on(stdout, 10u8)) {
        Some(problems) => Ok(problems),
        None => Err("no validation result (status "@ + status_debug(status) + ")"@
            + if trimmed(utf8_lossy(stderr)).len() == 0 { Seq::empty() } else { ": "@ + trimmed(utf8_lossy(stderr)) }),
    }
}

/// Reads the problems of a validation event.
fn read_validation(v: &Json) -> (r: Option<Vec<String>>)
    ensures
        match r {
            Some(p) => validation_event(json_view(*v)) == Some(p@.map_values(|s: String| s@)),
            None => validation_event(json_view(*v)) is None,
        },
{
    let t = match type_field(v) {
        Some(t) => t,
        None => return None,
    };
    if !str_eq(t.as_str(), "validation") {
        return None;
    }
    match v.get_key("errors") {
        None => {
            let r: Vec<String> = Vec::new();
            proof {
                assert(r@.map_values(|s: String| s@) =~= Seq::<Seq<char>>::empty());
            }
            Some(r)
        },
        Some(Json::Array(items)) => {
            proof {
                lemma_items_view(items@);
            }
            let ghost iv = items_view(items@);
            let mut out: Vec<String> = Vec::new();
            let mut i: usize = 0;
            proof {
                assert(iv.take(0) =~= Seq::<JsonView>::empty());
                assert(out@.map_values(|s: String| s@) =~= Seq::<Seq<char>>::empty());
            }
            while i < items.len()
                invariant
                    i <= items@.len(),
                    iv == items_view(items@),
                    get_key(json_view(*v), "errors"@) == Some(JsonView::Array(iv)),
                    event_type(json_view(*v)) == Some("validation"@),
                    iv.len() == items@.len(),
                    forall|k: int| 0 <= k < items@.len() ==> #[trigger] iv[k] == json_view(items@[k]),
                    string_items(iv.take(i as int)) == Some(out@.map_values(|s: String| s@)),
                decreases items@.len() - i,
            {
                proof {
                    assert(iv.take(i + 1).drop_last() =~= iv.take(i as int));
                    assert(iv.take(i + 1).last() == json_view(items@[i as int]));
                }
                match &items[i] {
                    Json::String(s) => {
                        let ghost before = out@.map_values(|s: String| s@);
                        out.push(s.clone());
                        proof {
                            assert(out@.map_values(|s: String| s@) =~= before.push(s@));
                        }
                    },
                    _ => {
                        proof {
                            assert(string_items(iv.take(i + 1)) is None);
                            lemma_string_items_prefix(iv, i + 1);
                        }
                        return None;
                    },
                }
                i = i + 1;
            }
            proof {
                assert(iv.take(items@.len() as int) =~= iv);
            }
            Some(out)
        },
        Some(_) => None,
    }
}

/// What a plugin's `validate` call comes to: the problems on the first
/// output line that reports them, else an error with the exit code and
/// what the plugin wrote to stderr.
pub fn plugin_validation(stdout: &[u8], status: Option<i32>, stderr: &[u8]) -> (r: Result<Vec<String>, String>)
    ensures
        match r {
            Ok(p) => validation_outcome(stdout@, status, stderr@) == Ok::<_, Seq<char>>(p@.map_values(|s: String| s@)),
            Err(e) => validation_outcome(stdout@, status, stderr@) == Err::<Seq<Seq<char>>, _>(e@),
        },
{
    let lines = split_bytes(stdout, 10u8);
    let ghost ls = split_on(stdout@, 10u8);
    let mut i: usize = 0;
    proof {
        assert(ls.skip(0) =~= ls);
    }
    while i < lines.len()
        invariant
            i <= lines@.len(),
            ls == split_on(stdout@, 10u8),
            lines@.len() == ls.len(),
            forall|k: int| 0 <= k < lines@.len() ==> #[trigger] lines@[k]@ == ls[k],
            first_validation(ls) == first_validation(ls.skip(i as int)),
        decreases lines@.len() - i,
    {
        let ghost rest = ls.skip(i as int);
        proof {
            assert(rest[0] == ls[i as int]);
            assert(rest.drop_first() =~= ls.skip(i + 1));
            assert(lines@[i as int]@ == ls[i as int]);
        }
        if lines[i].len() > 0 {
            if let Some(v) = parse_json_bytes(lines[i].as_slice()) {
                if let Some(p) = read_validation(&v) {
                    return Ok(p);
                }
            }
        }
        i = i + 1;
    }
    proof {
        assert(ls.skip(i as int).len() == 0);
    }
    let mut m = "no validation result (status ".to_owned();
    match status {
        Some(c) => {
            push_str(&mut m, "Some(");
            push_str(&mut m, decimal_i64(c as i64).as_str());
            push_str(&mut m, ")");
        },
        None => push_str(&mut m, "None"),
    }
    proof {
        assert(m@ =~= "no validation result (status "@ + status_debug(status));
    }
    push_str(&mut m, ")");
    let ghost head = m@;
    let err = lossy_text(stderr);
    let t = trim_chars(err.as_str());
    if t.len() > 0 {
        push_str(&mut m, ": ");
        push_str(&mut m, string_of(&t).as_str());
        proof {
            assert(m@ =~= head + (": "@ + trimmed(utf8_lossy(stderr@))));
        }
    } else {
        proof {
            assert(m@ =~= head + Seq::<char>::empty());
        }
    }
    Err(m)
}

/// The problems of a plugin config: those the manifest finds, then those
/// the plugin's own `validate` call reports when it supports one and the
/// call worked (a call that failed adds none).
pub fn validation_problems(schema: Vec<String>, plugin: Option<Result<Vec<String>, String>>) -> (r: Vec<String>)
    ensures
        match plugin {
            Some(Ok(p)) => r@ == schema@ + p@,
            _ => r@ == schema@,
        },
{
    let mut r = schema;
    match plugin {
        Some(Ok(mut p)) => {
            r.append(&mut p);
        },
        _ => {},
    }
    r
}

} // verus!
