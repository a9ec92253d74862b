//! Plugin-facing types: log levels, task errors, and the manifest and
//! capability vocabulary shared with plugins.

use vstd::prelude::*;
use crate::json::{get_key, json_view, Json, JsonView};
use crate::text::{decimal_i64, push_str, signed_decimal, str_eq, trim_chars, trimmed};

pub mod http;
pub mod protocol;
pub mod registry;
pub mod sdk;

verus! {

/// Severity of a log line emitted by a task, shown with an uppercase tag.
#[derive(Debug, Clone, Copy, PartialEq, Eq, Structural)]
pub enum LogLevel {
    /// Routine progress ("INFO").
    Info,
    /// Successful step ("OK").
    Success,
    /// Something unexpected but not fatal ("WARN").
    Warn,
    /// An error ("ERR").
    Error,
    /// Verbose diagnostics ("DBG").
    Dbg,
}

impl LogLevel {
    /// The tag a run view shows for this level.
    pub open spec fn tag(self) -> Seq<char> {
        match self {
            LogLevel::Info => "INFO"@,
            LogLevel::Success => "OK"@,
            LogLevel::Warn => "WARN"@,
            LogLevel::Error => "ERR"@,
            LogLevel::Dbg => "DBG"@,
        }
    }

    pub fn as_str(&self) -> (s: &'static str)
        ensures
            s@ == self.tag(),
    {
        match self {
            LogLevel::Info => "INFO",
            LogLevel::Success => "OK",
            LogLevel::Warn => "WARN",
            LogLevel::Error => "ERR",
            LogLevel::Dbg => "DBG",
        }
    }

    /// The tag as an owned string.
    pub fn to_string(&self) -> (s: String)
        ensures
            s@ == self.tag(),
    {
        self.as_str().to_owned()
    }
}

/// The level a plugin names in a log event; unknown names log as info.
pub open spec fn level_named(s: Seq<char>) -> LogLevel {
    if s == "ok"@ {
        LogLevel::Success
    } else if s == "warn"@ {
        LogLevel::Warn
    } else if s == "err"@ {
        LogLevel::Error
    } else if s == "dbg"@ {
        LogLevel::Dbg
    } else {
        LogLevel::Info
    }
}

/// The level of a plugin's log event, from its lowercase name.
pub fn log_level(s: &str) -> (l: LogLevel)
    ensures
        l == level_named(s@),
{
    if str_eq(s, "ok") {
        LogLevel::Success
    } else if str_eq(s, "warn") {
        LogLevel::Warn
    } else if str_eq(s, "err") {
        LogLevel::Error
    } else if str_eq(s, "dbg") {
        LogLevel::Dbg
    } else {
        LogLevel::Info
    }
}

/// Error of a task's execution. `retryable` tells the engine whether
/// running the task again could plausibly succeed.
#[derive(Debug, Clone)]
pub struct TaskError {
    /// Human-readable description, shown in run views.
    pub message: String,
    /// True when running the task again could succeed.
    pub retryable: bool,
}

impl TaskError {
    /// An error that retrying cannot fix (bad input, definitive rejection).
    pub fn fatal(message: String) -> (e: TaskError)
        ensures
            e.message == message,
            !e.retryable,
    {
        TaskError { message, retryable: false }
    }

    /// A transient error (infrastructure trouble) worth retrying.
    pub fn retryable(message: String) -> (e: TaskError)
        ensures
            e.message == message,
            e.retryable,
    {
        TaskError { message, retryable: true }
    }
}

/// Error a plugin returns from executing a task.
#[derive(Debug, Clone)]
pub struct PluginError {
    pub message: String,
    pub retryable: bool,
}

impl PluginError {
    /// An error that retrying cannot fix.
    pub fn fatal(message: String) -> (e: PluginError)
        ensures
            e.message == message,
            !e.retryable,
    {
        PluginError { message, retryable: false }
    }

    /// A transient error worth retrying.
    pub fn retryable(message: String) -> (e: PluginError)
        ensures
            e.message == message,
            e.retryable,
    {
        PluginError { message, retryable: true }
    }
}

/// How the engine runs a plugin's process.
#[derive(Debug, Clone, Copy, PartialEq, Eq, Structural)]
pub enum Lifecycle {
    /// Spawned fresh per task; cancelling kills the process. The default.
    Oneshot,
    /// One long-lived process serves many requests, told apart by id;
    /// cancelling is a message.
    Persistent,
}

impl Default for Lifecycle {
    fn default() -> (l: Lifecycle)
        ensures
            l == Lifecycle::Oneshot,
    {
        Lifecycle::Oneshot
    }
}

/// The widget that edits one config field of a task.
#[derive(Debug, Clone, Copy, PartialEq, Eq, Structural)]
pub enum Widget {
    /// Dropdown; the value is one of the field's options.
    Select,
    /// Single-line expression editor; the value is a template string.
    Template,
    /// Key and template-value rows; the value is `[{key, value}]`.
    Keyvalue,
    /// Numeric stepper; the value is a number.
    Number,
    /// Seconds; the value is a number.
    Duration,
    /// On/off switch; the value is a bool.
    Toggle,
    /// Plain string, no expressions.
    Text,
    /// Multi-line text; the value is a template string.
    Code,
}

impl Widget {
    /// The widget's lowercase wire name.
    pub open spec fn name(self) -> Seq<char> {
        match self {
            Widget::Select => "select"@,
            Widget::Template => "template"@,
            Widget::Keyvalue => "keyvalue"@,
            Widget::Number => "number"@,
            Widget::Duration => "duration"@,
            Widget::Toggle => "toggle"@,
            Widget::Text => "text"@,
            Widget::Code => "code"@,
        }
    }

    pub fn as_str(&self) -> (s: &'static str)
        ensures
            s@ == self.name(),
    {
        match self {
            Widget::Select => "select",
            Widget::Template => "template",
            Widget::Keyvalue => "keyvalue",
            Widget::Number => "number",
            Widget::Duration => "duration",
            Widget::Toggle => "toggle",
            Widget::Text => "text",
            Widget::Code => "code",
        }
    }
}

/// One task type a worker can execute, with its version when known.
#[derive(Debug, Clone, PartialEq, Eq)]
pub struct PluginCapability {
    /// The plugin's `type_id`.
    pub type_id: String,
    /// The plugin's version, when known.
    pub version: Option<String>,
}

/// What the engine reads of a manifest field to check a config: its key,
/// whether it is required, and its default (`null` when it has none).
#[derive(Debug)]
pub struct FieldRule {
    pub key: String,
    pub required: bool,
    pub default: Json,
}

/// Whether a config lacks a required field: absent, `null`, or a blank
/// string.
pub open spec fn missing_field(config: JsonView, key: Seq<char>) -> bool {
    match get_key(config, key) {
        None => true,
        Some(JsonView::Null) => true,
        Some(JsonView::String(s)) => trimmed(s).len() == 0,
        Some(_) => false,
    }
}

/// The problems of a config against its manifest's fields: each required
/// field without a default that the config lacks.
pub open spec fn manifest_problems(fields: Seq<FieldRule>, config: JsonView) -> Seq<Seq<char>>
    decreases fields.len(),
{
    if fields.len() == 0 {
        seq![]
    } else {
        let before = manifest_problems(fields.drop_last(), config);
        let f = fields.last();
        if f.required && json_view(f.default) == JsonView::Null && missing_field(config, f.key@) {
            before.push(f.key@ + " is required"@)
        } else {
            before
        }
    }
}

/// Strings as sequences.
pub open spec fn texts(v: Seq<String>) -> Seq<Seq<char>> {
    v.map_values(|x: String| x@)
}

/// Checks a config against its manifest: every required field without a
/// default must be present, non-null, and not a blank string.
pub fn validate_against_manifest(fields: &Vec<FieldRule>, config: &Json) -> (r: Vec<String>)
    ensures
        texts(r@) == match json_view(*config) {
            JsonView::Object(_) => manifest_problems(fields@, json_view(*config)),
            _ => seq!["config must be an object"@],
        },
{
    let mut errs: Vec<String> = Vec::new();
    if !matches!(config, Json::Object(_)) {
        errs.push("config must be an object".to_string());
        proof {
            assert(texts(errs@) =~= seq!["config must be an object"@]);
        }
        return errs;
    }
    let mut i: usize = 0;
    proof {
        assert(fields@.take(0) =~= Seq::<FieldRule>::empty());
        assert(texts(errs@) =~= seq![]);
    }
    while i < fields.len()
        invariant
            i <= fields@.len(),
            *config is Object,
            texts(errs@) == manifest_problems(fields@.take(i as int), json_view(*config)),
        decreases fields@.len() - i,
    {
        let f = &fields[i];
        proof {
            assert(fields@.take(i + 1).drop_last() =~= fields@.take(i as int));
            assert(fields@.take(i + 1).last() == *f);
        }
        if f.required && matches!(f.default, Json::Null) {
            let missing = match config.get_key(f.key.as_str()) {
                None => true,
                Some(Json::Null) => true,
                Some(Json::String(s)) => trim_chars(s.as_str()).len() == 0,
                Some(_) => false,
            };
            if missing {
                let mut m = f.key.clone();
                push_str(&mut m, " is required");
                let ghost before = errs@;
                errs.push(m);
                proof {
                    assert(texts(errs@) =~= texts(before).push(m@));
                }
            }
        }
        i = i + 1;
    }
    proof {
        assert(fields@.take(fields@.len() as int) =~= fields@);
    }
    errs
}

/// How a plugin process ended: its exit code, or a signal.
pub open spec fn exit_text(code: Option<i32>) -> Seq<char> {
    match code {
        Some(c) => "exit status "@ + signed_decimal(c as int),
        None => "terminated by signal"@,
    }
}

/// How a plugin process ended, from its exit code (none when a signal
/// ended it).
pub fn exit_description(code: Option<i32>) -> (s: String)
    ensures
        s@ == exit_text(code),
{
    match code {
        Some(c) => {
            let mut s = "exit status ".to_string();
            push_str(&mut s, decimal_i64(c as i64).as_str());
            s
        },
        None => "terminated by signal".to_string(),
    }
}

/// The error of a plugin process that ended without a terminal event,
/// with how it ended and what it wrote to stderr (trimmed), if anything.
pub open spec fn no_result_text(status: Seq<char>, stderr: Seq<char>) -> Seq<char> {
    if trimmed(stderr).len() == 0 {
        "plugin exited without a result ("@ + status + ")"@
    } else {
        "plugin exited without a result ("@ + status + "): "@ + trimmed(stderr)
    }
}

/// The error of a plugin process that ended without a terminal event.
pub fn no_result_error(status: &str, stderr: &str) -> (e: TaskError)
    ensures
        e.message@ == no_result_text(status@, stderr@),
        !e.retryable,
{
    let t = trim_chars(stderr);
    let mut m = "plugin exited without a result (".to_string();
    push_str(&mut m, status);
    if t.len() == 0 {
        push_str(&mut m, ")");
    } else {
        push_str(&mut m, "): ");
        let ghost base = m@;
        let mut i: usize = 0;
        while i < t.len()
            invariant
                i <= t@.len(),
                m@ == base + t@.take(i as int),
            decreases t@.len() - i,
        {
            crate::text::push_char(&mut m, t[i]);
            proof {
                assert(t@.take(i + 1) =~= t@.take(i as int).push(t@[i as int]));
            }
            i = i + 1;
        }
        proof {
            assert(t@.take(t@.len() as int) =~= t@);
        }
    }
    TaskError::fatal(m)
}

} // verus!
