//! Flow definition types.

use vstd::prelude::*;
use crate::json::Json;
use crate::text::str_eq;

verus! {

/// A complete flow definition: metadata, inputs, variables, triggers, and
/// the ordered task list.
#[derive(Debug)]
pub struct FlowDefinition {
    /// Display name; must not be blank.
    pub name: String,
    /// Grouping namespace; `"default"` when not given.
    pub namespace: String,
    /// Free-form description.
    pub description: String,
    /// Execution queue label (`[a-z][a-z0-9_]*`); `"local"` is served by the
    /// server's own executor.
    pub queue: String,
    /// Run parameters supplied at trigger time.
    pub inputs: Vec<InputDef>,
    /// Flow-scoped constants, referenced as `{{ vars.<id> }}`.
    pub variables: Vec<VarDef>,
    /// Schedule triggers.
    pub triggers: Vec<TriggerDef>,
    /// Tasks, run in order.
    pub tasks: Vec<TaskDef>,
}

/// A declared run input, referenced as `{{ inputs.<id> }}`.
#[derive(Debug, Clone)]
pub struct InputDef {
    pub id: String,
    /// Value type, parsed from the raw string at trigger time.
    pub input_type: InputType,
    /// Whether a value must be supplied when the flow runs.
    pub required: bool,
    /// Default value as a template, rendered at trigger time.
    pub default: Option<String>,
}

/// Value type of an input or a task output.
#[derive(Debug, Clone, Copy, PartialEq, Eq, Structural)]
pub enum InputType {
    /// Plain string.
    String,
    /// JSON array.
    Array,
    /// ISO-8601 date or datetime string.
    Date,
    /// Integer.
    Int,
    /// Boolean.
    Boolean,
    /// Any JSON value.
    Json,
}

/// A flow-scoped constant, referenced as `{{ vars.<id> }}`.
#[derive(Debug, Clone)]
pub struct VarDef {
    pub id: String,
    /// Literal value.
    pub value: String,
}

/// A schedule trigger.
#[derive(Debug, Clone)]
pub struct TriggerDef {
    pub id: String,
    /// Trigger kind; must be `"schedule"`.
    pub trigger_type: String,
    /// 5-field cron expression.
    pub cron: String,
    /// IANA timezone the cron fires in; `"UTC"` when not given.
    pub timezone: String,
    /// What to do with fire times missed while the scheduler was down.
    pub catchup: Catchup,
    /// Whether the trigger fires.
    pub enabled: bool,
}

/// Catch-up policy for missed schedule fires.
#[derive(Debug, Clone, Copy, PartialEq, Eq, Structural)]
pub enum Catchup {
    /// Skip everything missed.
    Skip,
    /// Run once for the most recent missed fire (the default).
    Latest,
    /// Run once per missed fire.
    All,
}

impl Default for Catchup {
    fn default() -> (c: Catchup)
        ensures
            c == Catchup::Latest,
    {
        Catchup::Latest
    }
}

/// One task of a flow: an id, and a plugin invocation or a parallel fan-out.
#[derive(Debug)]
pub struct TaskDef {
    /// Unique across the whole flow, children of parallel tasks included.
    pub id: String,
    pub kind: TaskKind,
}

/// The two task shapes.
#[derive(Debug)]
pub enum TaskKind {
    /// Run a plugin.
    Plugin(PluginTask),
    /// Fan out child tasks over an items array.
    Parallel(ParallelTask),
}

/// A task run by a plugin.
#[derive(Debug)]
pub struct PluginTask {
    /// The plugin's registry key, e.g. `"http.request"`.
    pub type_id: String,
    /// Retry policy; without one, a single attempt.
    pub retry: Option<RetryPolicy>,
    /// Per-attempt timeout in seconds (1..=3600).
    pub timeout_seconds: Option<u64>,
    /// What the run does when the task fails on its last attempt.
    pub on_error: OnError,
    /// Plugin config as authored (templates unrendered).
    pub config: Json,
    /// Values extracted from the plugin's result for later tasks.
    pub outputs: Vec<OutputDef>,
}

/// Exponential backoff: attempt `n` waits `base_seconds * 2^(n-1)` before
/// the next one.
#[derive(Debug, Clone)]
pub struct RetryPolicy {
    /// Policy kind; must be `"exponential"`.
    pub retry_type: String,
    /// Total attempts including the first (1..=20).
    pub max_attempts: u32,
    /// Backoff base in seconds (1..=3600).
    pub base_seconds: u64,
}

/// What happens to the run when a task exhausts its attempts.
#[derive(Debug, Clone, Copy, PartialEq, Eq, Structural)]
pub enum OnError {
    /// Fail the whole run (the default).
    Fail,
    /// Record the failure and go on.
    Continue,
}

impl Default for OnError {
    fn default() -> (o: OnError)
        ensures
            o == OnError::Fail,
    {
        OnError::Fail
    }
}

/// A named value extracted from a task's result, referenced later as
/// `{{ outputs.<task>.<name> }}`.
#[derive(Debug, Clone)]
pub struct OutputDef {
    /// Unique per task.
    pub name: String,
    /// Declared value type.
    pub output_type: InputType,
    /// Path into the result, starting with `result`, e.g. `result.body.ids`.
    pub extract: String,
}

/// A fan-out: `items` renders to an array, and the child chain runs once
/// per item, at most `concurrency` at a time.
#[derive(Debug)]
pub struct ParallelTask {
    /// Template that must render to an array.
    pub items: String,
    /// Children in flight at most (1..=256).
    pub concurrency: u32,
    /// Child tasks, run as a chain per item; all must be plugin tasks.
    pub tasks: Vec<TaskDef>,
    /// Outputs of the fan-out itself, from the aggregated result.
    pub outputs: Vec<OutputDef>,
}

/// Error from reading or writing a definition.
#[derive(Debug, Clone, PartialEq, Eq)]
pub struct ModelError {
    pub message: String,
}

impl ModelError {
    pub fn new(message: String) -> (e: ModelError)
        ensures
            e.message == message,
    {
        ModelError { message }
    }
}

/// The queue served by the server's own executor.
pub open spec fn local_queue() -> Seq<char> {
    "local"@
}

pub fn default_namespace() -> (s: String)
    ensures
        s@ == "default"@,
{
    "default".to_owned()
}

pub fn default_queue() -> (s: String)
    ensures
        s@ == local_queue(),
{
    "local".to_owned()
}

/// Whether a queue is the default `"local"` one.
pub fn is_local_queue(queue: &str) -> (b: bool)
    ensures
        b == (queue@ == local_queue()),
{
    str_eq(queue, "local")
}

pub fn default_timezone() -> (s: String)
    ensures
        s@ == "UTC"@,
{
    "UTC".to_owned()
}

pub fn default_true() -> (b: bool)
    ensures
        b,
{
    true
}

} // verus!
