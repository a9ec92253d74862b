//! The shapes of stored records, and the run statuses that end a run.

use vstd::prelude::*;
use crate::text::str_eq;

verus! {

/// A run status after which the run never changes again.
pub open spec fn terminal_run_status(status: Seq<char>) -> bool {
    ||| status == "success"@
    ||| status == "degraded"@
    ||| status == "failed"@
    ||| status == "canceled"@
}

/// Whether a run in `status` is finished for good.
pub fn is_terminal_run_status(status: &str) -> (b: bool)
    ensures
        b == terminal_run_status(status@),
{
    str_eq(status, "success") || str_eq(status, "degraded") || str_eq(status, "failed")
        || str_eq(status, "canceled")
}

/// A stored flow. `definition` is the flow definition as JSON text.
#[derive(Debug, Clone)]
pub struct FlowRow {
    pub id: String,
    pub name: String,
    pub namespace: String,
    pub description: String,
    pub definition: String,
    pub current_rev: i64,
    pub paused: bool,
    pub created_at: String,
    pub updated_at: String,
}

/// One stored revision of a flow definition (JSON text).
#[derive(Debug, Clone)]
pub struct FlowRevisionRow {
    pub flow_id: String,
    pub rev: i64,
    pub definition: String,
    pub message: String,
    pub created_at: String,
}

/// A stored run. `inputs` is a JSON object as text.
#[derive(Debug, Clone)]
pub struct RunRow {
    pub id: i64,
    pub flow_id: String,
    pub flow_rev: i64,
    pub status: String,
    pub trigger: String,
    pub inputs: String,
    /// Execution queue this run is dispatched to (`local` = in-process).
    pub queue: String,
    pub scheduled_for: Option<String>,
    pub started_at: Option<String>,
    pub finished_at: Option<String>,
    pub error: Option<String>,
    /// Worker that leased this run (`None` for local or unclaimed runs).
    pub worker_id: Option<String>,
    /// Lease deadline a claiming worker renews via heartbeats.
    pub lease_expires_at: Option<String>,
    /// Highest per-run update sequence number applied.
    pub last_seq: i64,
    /// Dispatch attempt (0 = first), bumped when a lost run is requeued.
    pub attempt: i64,
}

/// A stored task run. `result` and `outputs` are JSON text.
#[derive(Debug, Clone)]
pub struct TaskRunRow {
    pub id: i64,
    pub run_id: i64,
    pub task_id: String,
    pub status: String,
    pub attempt: i64,
    pub result: Option<String>,
    pub outputs: Option<String>,
    pub error: Option<String>,
    /// When the task run was enqueued, ahead of `started_at`.
    pub created_at: Option<String>,
    pub started_at: Option<String>,
    pub finished_at: Option<String>,
}

/// One fan-out item of a parallel task. `item` and `result` are JSON text.
#[derive(Debug, Clone)]
pub struct ItemRow {
    pub id: i64,
    pub task_run_id: i64,
    pub idx: i64,
    pub item: String,
    pub status: String,
    pub attempt: i64,
    pub result: Option<String>,
    pub error: Option<String>,
    pub started_at: Option<String>,
    pub finished_at: Option<String>,
}

/// Item counts of one parallel task run, by status.
#[derive(Debug, Clone, Copy, Default, PartialEq, Eq, Structural)]
pub struct ItemAggregates {
    pub total: u64,
    pub queued: u64,
    pub running: u64,
    pub success: u64,
    pub failed: u64,
    pub dropped: u64,
    /// Items run more than once.
    pub retried: u64,
}

/// One stored log line of a run.
#[derive(Debug, Clone)]
pub struct LogRow {
    pub id: i64,
    pub run_id: i64,
    pub ts: String,
    pub level: String,
    pub task: String,
    pub message: String,
}

/// One schedule trigger of a flow, with its firing state.
#[derive(Debug, Clone)]
pub struct ScheduleRow {
    pub flow_id: String,
    pub flow_name: String,
    pub flow_paused: bool,
    pub trigger_id: String,
    pub enabled: bool,
    pub next_fire_at: Option<String>,
    pub last_fired_at: Option<String>,
}

/// Run counts over the last 24 hours.
#[derive(Debug, Clone, Copy, Default)]
pub struct Runs24h {
    pub total: u64,
    pub ok: u64,
    pub degraded: u64,
    pub failed: u64,
    pub running: u64,
}

/// A change of a run's status. `error` is always written (`None` clears
/// it); the timestamps only when given.
#[derive(Debug, Clone, Copy)]
pub struct RunStatusUpdate<'a> {
    pub status: &'a str,
    pub error: Option<&'a str>,
    pub started_at: Option<&'a str>,
    pub finished_at: Option<&'a str>,
}

/// The end of a task run. `result`, `outputs` and `error` are always written.
#[derive(Debug, Clone, Copy)]
pub struct TaskRunFinish<'a> {
    pub status: &'a str,
    pub result: Option<&'a str>,
    pub outputs: Option<&'a str>,
    pub error: Option<&'a str>,
}

/// A change of one fan-out item. `result` and `error` are always written;
/// the timestamps only when given.
#[derive(Debug, Clone, Copy)]
pub struct ItemUpdate<'a> {
    pub status: &'a str,
    pub attempt: i64,
    pub result: Option<&'a str>,
    pub error: Option<&'a str>,
    pub started_at: Option<&'a str>,
    pub finished_at: Option<&'a str>,
}

} // verus!
