//! The decisions of a run's execution. The executor performs the outside
//! work (calling plugins, writing rows, sleeping) and hands each result to
//! these functions, which say what comes next.
//!
//! Tasks run in order. A task that fails with `on_error: fail` fails the
//! run and every later task is recorded as skipped; with `on_error:
//! continue` the run goes on. Cancellation stops the run before the next
//! task, and a canceled run ends canceled even after a failure.

use vstd::prelude::*;
use crate::engine::inputs::{json_kind, json_type_name, render_error_text};
use crate::engine::outputs::{extract_outputs, members_outcome, outputs_of};
use crate::expr::ExprError;
use crate::expr::redact::{mask_all, redact_str, redaction_order, string_views};
use crate::expr::render::{outcome, ErrorView};
use crate::json::{member, get_key, json_view, lemma_items_view, lemma_members_view, members_view, items_view, set_key, Json, JsonView};
use crate::model::OutputDef;
use crate::model::{OnError, RetryPolicy, TaskKind};
use crate::plugins::LogLevel;
use crate::plugins::registry::PluginRegistry;
use crate::text::{decimal, decimal_u64, push_str};
use vstd::arithmetic::power2::{lemma2_to64, lemma2_to64_rest, lemma_pow2_strictly_increases, lemma_pow2_unfold, pow2};

verus! {

/// Per-attempt plugin timeout, in seconds, when a task declares none.
pub const DEFAULT_TIMEOUT_SECS: u64 = 60;

/// How one task ended, after all of its attempts.
#[derive(Debug)]
pub enum TaskOutcome {
    /// The task succeeded: its (redacted) result, its extracted outputs as
    /// object members, and the attempt that succeeded.
    Success { result: Json, outputs: Vec<(String, Json)>, attempt: u32 },
    /// The task failed for good, with its (redacted) message and the last
    /// attempt (0 when no attempt ran).
    Failed { error: String, attempt: u32 },
    /// The run was canceled while the task ran.
    Canceled,
}

/// What to do before the next task of a run.
#[derive(Debug, Clone, Copy, PartialEq, Eq, Structural)]
pub enum TaskStep {
    /// Stop executing tasks.
    Stop,
    /// Record the task as skipped (with attempt 0) and go on.
    Skip,
    /// Execute the task.
    Execute,
}

/// A log line: level, task label, message.
#[derive(Debug)]
pub struct LogLine {
    pub level: LogLevel,
    pub task: String,
    pub message: String,
}

/// A log line as sequences.
pub open spec fn line_view(l: LogLine) -> (LogLevel, Seq<char>, Seq<char>) {
    (l.level, l.task@, l.message@)
}

/// What to write for a task once its outcome is known: the status of its
/// row and event, the attempt the event carries, the error stored on the
/// row, and the log lines to append.
#[derive(Debug)]
pub struct TaskRecord {
    pub status: String,
    pub attempt: u32,
    pub error: Option<String>,
    pub logs: Vec<LogLine>,
}

/// The state of a run between tasks: the message of the failure that ends
/// it, and whether it was canceled.
#[derive(Debug)]
pub struct RunProgress {
    pub run_error: Option<String>,
    pub canceled: bool,
}

/// An optional string as an optional sequence.
pub open spec fn opt_view(s: Option<String>) -> Option<Seq<char>> {
    match s {
        Some(x) => Some(x@),
        None => None,
    }
}

/// The run's state as sequences.
pub open spec fn progress_view(p: RunProgress) -> (Option<Seq<char>>, bool) {
    (opt_view(p.run_error), p.canceled)
}

/// The message a failed `on_error: fail` task leaves on the run.
pub open spec fn task_failure(task_id: Seq<char>, error: Seq<char>) -> Seq<char> {
    "task "@ + task_id + ": "@ + error
}

/// The warning when a failed task lets the run go on.
pub open spec fn continue_warning(task_id: Seq<char>) -> Seq<char> {
    "task "@ + task_id + " failed; continuing (on_error=continue)"@
}

/// How a top-level task's failure affects the run: as its `on_error`
/// says for a plugin task; a parallel task that fails always fails the
/// run.
pub fn task_on_error(kind: &TaskKind) -> (r: OnError)
    ensures
        match kind {
            TaskKind::Plugin(pt) => r == pt.on_error,
            TaskKind::Parallel(_) => r == OnError::Fail,
        },
{
    match kind {
        TaskKind::Plugin(pt) => pt.on_error,
        TaskKind::Parallel(_) => OnError::Fail,
    }
}

impl RunProgress {
    /// A run that has not failed and is not canceled.
    pub fn new() -> (p: RunProgress)
        ensures
            progress_view(p) == (None::<Seq<char>>, false),
    {
        RunProgress { run_error: None, canceled: false }
    }

    /// Decides what happens before the next task: nothing more after a
    /// cancellation; skip after a failure; a cancellation noticed now
    /// cancels the run; otherwise execute.
    pub fn before_task(&mut self, cancelled: bool) -> (step: TaskStep)
        ensures
            old(self).canceled ==> step == TaskStep::Stop && progress_view(*final(self)) == progress_view(*old(self)),
            !old(self).canceled && old(self).run_error is Some ==> step == TaskStep::Skip
                && progress_view(*final(self)) == progress_view(*old(self)),
            !old(self).canceled && old(self).run_error is None && cancelled ==> step == TaskStep::Stop
                && progress_view(*final(self)) == (None::<Seq<char>>, true),
            !old(self).canceled && old(self).run_error is None && !cancelled ==> step == TaskStep::Execute
                && progress_view(*final(self)) == progress_view(*old(self)),
    {
        if self.canceled {
            return TaskStep::Stop;
        }
        if self.run_error.is_some() {
            return TaskStep::Skip;
        }
        if cancelled {
            self.canceled = true;
            return TaskStep::Stop;
        }
        TaskStep::Execute
    }

    /// Records a task's outcome: what to write for it, and how the run
    /// goes on. A success changes nothing; a failure with `on_error: fail`
    /// fails the run; a cancellation cancels it.
    pub fn after_task(&mut self, task_id: &str, outcome: &TaskOutcome, on_error: OnError) -> (rec: TaskRecord)
        requires
            !old(self).canceled,
            old(self).run_error is None,
        ensures
            match outcome {
                TaskOutcome::Success { attempt, .. } => {
                    &&& rec.status@ == "success"@
                    &&& rec.attempt == attempt
                    &&& rec.error is None
                    &&& rec.logs@.len() == 1
                    &&& line_view(rec.logs@[0]) == (LogLevel::Success, task_id@, "task succeeded"@)
                    &&& progress_view(*final(self)) == progress_view(*old(self))
                },
                TaskOutcome::Failed { error, attempt } => {
                    &&& rec.status@ == "failed"@
                    &&& rec.attempt == attempt
                    &&& opt_view(rec.error) == Some(error@)
                    &&& line_view(rec.logs@[0]) == (LogLevel::Error, task_id@, error@)
                    &&& on_error == OnError::Fail ==> rec.logs@.len() == 1
                        && progress_view(*final(self)) == (Some(task_failure(task_id@, error@)), false)
                    &&& on_error == OnError::Continue ==> rec.logs@.len() == 2
                        && line_view(rec.logs@[1]) == (LogLevel::Warn, "flow"@, continue_warning(task_id@))
                        && progress_view(*final(self)) == progress_view(*old(self))
                },
                TaskOutcome::Canceled => {
                    &&& rec.status@ == "canceled"@
                    &&& rec.attempt == 0
                    &&& rec.error is None
                    &&& rec.logs@.len() == 0
                    &&& progress_view(*final(self)) == (None::<Seq<char>>, true)
                },
            },
    {
        match outcome {
            TaskOutcome::Success { attempt, .. } => {
                let mut logs: Vec<LogLine> = Vec::new();
                logs.push(LogLine { level: LogLevel::Success, task: task_id.to_string(), message: "task succeeded".to_string() });
                TaskRecord { status: "success".to_string(), attempt: *attempt, error: None, logs }
            },
            TaskOutcome::Failed { error, attempt } => {
                let mut logs: Vec<LogLine> = Vec::new();
                logs.push(LogLine { level: LogLevel::Error, task: task_id.to_string(), message: error.clone() });
                match on_error {
                    OnError::Fail => {
                        let mut m = String::new();
                        push_str(&mut m, "task ");
                        push_str(&mut m, task_id);
                        push_str(&mut m, ": ");
                        push_str(&mut m, error.as_str());
                        self.run_error = Some(m);
                    },
                    OnError::Continue => {
                        let mut m = String::new();
                        push_str(&mut m, "task ");
                        push_str(&mut m, task_id);
                        push_str(&mut m, " failed; continuing (on_error=continue)");
                        logs.push(LogLine { level: LogLevel::Warn, task: "flow".to_string(), message: m });
                    },
                }
                TaskRecord { status: "failed".to_string(), attempt: *attempt, error: Some(error.clone()), logs }
            },
            TaskOutcome::Canceled => {
                self.canceled = true;
                TaskRecord { status: "canceled".to_string(), attempt: 0, error: None, logs: Vec::new() }
            },
        }
    }

    /// The run's terminal status and error once its tasks are done:
    /// canceled before failed before success.
    pub fn final_status(&self) -> (r: (String, Option<String>))
        ensures
            self.canceled ==> r.0@ == "canceled"@ && r.1 is None,
            !self.canceled && self.run_error is Some ==> r.0@ == "failed"@ && opt_view(r.1) == opt_view(self.run_error),
            !self.canceled && self.run_error is None ==> r.0@ == "success"@ && r.1 is None,
    {
        if self.canceled {
            ("canceled".to_string(), None)
        } else {
            match &self.run_error {
                Some(e) => ("failed".to_string(), Some(e.clone())),
                None => ("success".to_string(), None),
            }
        }
    }
}

// ---------------------------------------------------------------------------
// Retries
// ---------------------------------------------------------------------------

/// Total attempts a task gets: its policy's, at least one; one without a
/// policy.
pub open spec fn attempts_allowed(retry: Option<RetryPolicy>) -> int {
    match retry {
        Some(r) => if r.max_attempts >= 1 { r.max_attempts as int } else { 1 },
        None => 1,
    }
}

/// Total attempts a task gets.
pub fn max_attempts(retry: &Option<RetryPolicy>) -> (n: u32)
    ensures
        n == attempts_allowed(*retry),
{
    match retry {
        Some(r) => if r.max_attempts >= 1 { r.max_attempts } else { 1 },
        None => 1,
    }
}

/// The backoff base in seconds: the policy's, or 0 without one.
pub fn base_seconds(retry: &Option<RetryPolicy>) -> (s: u64)
    ensures
        s == match *retry { Some(r) => r.base_seconds, None => 0 },
{
    match retry {
        Some(r) => r.base_seconds,
        None => 0,
    }
}

/// The wait before the attempt after `attempt`: `base * 2^(attempt - 1)`,
/// the exponent capped at 62 and the product saturating at `u64::MAX`.
pub open spec fn backoff(base: int, attempt: int) -> int {
    let k: nat = if attempt - 1 < 62 { (attempt - 1) as nat } else { 62 };
    if base * pow2(k) > u64::MAX { u64::MAX as int } else { base * pow2(k) }
}

/// The wait in seconds before the attempt after `attempt`.
pub fn backoff_secs(base: u64, attempt: u32) -> (s: u64)
    requires
        attempt >= 1,
    ensures
        s == backoff(base as int, attempt as int),
{
    let k: u32 = if attempt - 1 < 62 { attempt - 1 } else { 62 };
    let mut exp: u64 = 1;
    let mut i: u32 = 0;
    proof {
        lemma2_to64();
    }
    while i < k
        invariant
            i <= k <= 62,
            exp == pow2(i as nat),
        decreases k - i,
    {
        proof {
            lemma2_to64_rest();
            lemma_pow2_unfold((i + 1) as nat);
            if i + 1 < 62 {
                lemma_pow2_strictly_increases((i + 1) as nat, 62);
            }
        }
        exp = exp * 2;
        i = i + 1;
    }
    match base.checked_mul(exp) {
        Some(v) => v,
        None => u64::MAX,
    }
}

/// The message of a task whose type no plugin is registered for.
pub open spec fn unknown_type_error(type_id: Seq<char>) -> Seq<char> {
    "unknown task type \""@ + type_id + "\""@
}

/// The plugin registered for a task's type, or, when there is none, the
/// task's outcome: failed before any attempt ran.
pub fn task_executor<'a, E>(registry: &'a PluginRegistry<E>, type_id: &str) -> (r: Result<&'a E, TaskOutcome>)
    ensures
        match r {
            Ok(e) => member(registry@, type_id@) == Some(*e),
            Err(o) => member(registry@, type_id@) is None
                && outcome_view(o) == (OutcomeView::Failed { error: unknown_type_error(type_id@), attempt: 0 }),
        },
{
    match registry.get(type_id) {
        Some(e) => Ok(e),
        None => {
            let mut m = String::new();
            push_str(&mut m, "unknown task type \"");
            push_str(&mut m, type_id);
            push_str(&mut m, "\"");
            Err(TaskOutcome::Failed { error: m, attempt: 0 })
        },
    }
}

/// What follows a failed attempt.
#[derive(Debug, Clone, Copy, PartialEq, Eq, Structural)]
pub enum AttemptStep {
    /// The run was canceled: the task ends canceled.
    Canceled,
    /// Wait this many seconds, then make the next attempt.
    Retry { backoff: u64 },
    /// The task fails with this attempt's error.
    Fail,
}

/// Decides what follows an attempt that ended in an error: the engine's
/// cancellation first, then a retry while the error is retryable and
/// attempts remain, else failure.
pub fn after_attempt_error(retryable: bool, attempt: u32, max_attempts: u32, base: u64, cancelled: bool) -> (step: AttemptStep)
    requires
        attempt >= 1,
    ensures
        cancelled ==> step == AttemptStep::Canceled,
        !cancelled && retryable && attempt < max_attempts
            ==> step == (AttemptStep::Retry { backoff: backoff(base as int, attempt as int) as u64 }),
        !cancelled && !(retryable && attempt < max_attempts) ==> step == AttemptStep::Fail,
{
    if cancelled {
        return AttemptStep::Canceled;
    }
    if retryable && attempt < max_attempts {
        return AttemptStep::Retry { backoff: backoff_secs(base, attempt) };
    }
    AttemptStep::Fail
}

/// The warning logged before a retry.
pub open spec fn retry_warning(attempt: nat, max_attempts: nat, error: Seq<char>, backoff: nat) -> Seq<char> {
    "attempt "@ + decimal(attempt) + "/"@ + decimal(max_attempts) + " failed: "@ + error
        + " \u{2014} retrying in "@ + decimal(backoff) + "s"@
}

/// The warning logged before a retry.
pub fn retry_message(attempt: u32, max_attempts: u32, error: &str, backoff: u64) -> (s: String)
    ensures
        s@ == retry_warning(attempt as nat, max_attempts as nat, error@, backoff as nat),
{
    let mut s = String::new();
    push_str(&mut s, "attempt ");
    push_str(&mut s, decimal_u64(attempt as u64).as_str());
    push_str(&mut s, "/");
    push_str(&mut s, decimal_u64(max_attempts as u64).as_str());
    push_str(&mut s, " failed: ");
    push_str(&mut s, error);
    push_str(&mut s, " \u{2014} retrying in ");
    push_str(&mut s, decimal_u64(backoff).as_str());
    push_str(&mut s, "s");
    s
}

/// The error of an attempt that ran out of time.
pub open spec fn timeout_error(secs: nat) -> Seq<char> {
    "timed out after "@ + decimal(secs) + "s"@
}

/// The error of an attempt that ran out of time.
pub fn timeout_message(secs: u64) -> (s: String)
    ensures
        s@ == timeout_error(secs as nat),
{
    let mut s = String::new();
    push_str(&mut s, "timed out after ");
    push_str(&mut s, decimal_u64(secs).as_str());
    push_str(&mut s, "s");
    s
}

/// The per-attempt timeout of a task, in seconds.
pub fn timeout_secs(declared: Option<u64>) -> (s: u64)
    ensures
        s == match declared { Some(t) => t, None => DEFAULT_TIMEOUT_SECS },
{
    match declared {
        Some(t) => t,
        None => DEFAULT_TIMEOUT_SECS,
    }
}

// ---------------------------------------------------------------------------
// The run context
// ---------------------------------------------------------------------------

/// The context after a task's outputs are stored under
/// `outputs.<task_id>`.
pub open spec fn with_outputs(ctx: JsonView, task_id: Seq<char>, outputs: Seq<(Seq<char>, JsonView)>) -> JsonView {
    let old_outputs = match get_key(ctx, "outputs"@) {
        Some(o) => o,
        None => JsonView::Null,
    };
    set_key(ctx, "outputs"@, set_key(old_outputs, task_id, JsonView::Object(outputs)))
}

/// Stores a task's outputs in the run context under `outputs.<task_id>`.
pub fn store_outputs(ctx: &mut Json, task_id: &str, outputs: Vec<(String, Json)>)
    requires
        *old(ctx) is Object,
        match get_key(json_view(*old(ctx)), "outputs"@) {
            Some(o) => o is Object || o is Null,
            None => true,
        },
    ensures
        json_view(*final(ctx)) == with_outputs(json_view(*old(ctx)), task_id@, members_view(outputs@)),
{
    let mut current = match ctx.get_key("outputs") {
        Some(o) => o.copy(),
        None => Json::Null,
    };
    proof {
        lemma_members_view(outputs@);
    }
    let ghost ov = members_view(outputs@);
    let value = Json::Object(outputs);
    assert(json_view(value) == JsonView::Object(ov));
    current.set_key(task_id.to_string(), value);
    ctx.set_key("outputs".to_string(), current);
}

/// The context a fan-out item's children run in: the run's context with
/// the item as `taskrun.value`.
pub open spec fn item_context(ctx: JsonView, item: JsonView) -> JsonView {
    set_key(ctx, "taskrun"@, JsonView::Object(seq![("value"@, item)]))
}

/// The context a fan-out item's children run in.
pub fn item_ctx(ctx: &Json, item: &Json) -> (r: Json)
    requires
        *ctx is Object,
    ensures
        json_view(r) == item_context(json_view(*ctx), json_view(*item)),
{
    let mut r = ctx.copy();
    let mut members: Vec<(String, Json)> = Vec::new();
    members.push(("value".to_string(), item.copy()));
    proof {
        lemma_members_view(members@);
        assert(members_view(members@) =~= seq![("value"@, json_view(*item))]);
    }
    r.set_key("taskrun".to_string(), Json::Object(members));
    r
}

// ---------------------------------------------------------------------------
// Fan-out items
// ---------------------------------------------------------------------------

/// How one fan-out item ended.
#[derive(Debug)]
pub enum ItemOutcome {
    /// Every child succeeded; the last child's (redacted) result.
    Success(Json),
    /// A child with `on_error: continue` failed: the item is dropped.
    Dropped,
    /// A child with `on_error: fail` failed: the whole parallel task fails.
    Failed(String),
    /// The run was canceled, or the fan-out aborted, before or while the
    /// item ran.
    Canceled,
}

/// An item outcome as sequences.
pub enum ItemView {
    Success(JsonView),
    Dropped,
    Failed(Seq<char>),
    Canceled,
}

pub open spec fn item_view(o: ItemOutcome) -> ItemView {
    match o {
        ItemOutcome::Success(v) => ItemView::Success(json_view(v)),
        ItemOutcome::Dropped => ItemView::Dropped,
        ItemOutcome::Failed(e) => ItemView::Failed(e@),
        ItemOutcome::Canceled => ItemView::Canceled,
    }
}

/// Item outcomes, each with its item's position, as sequences.
pub open spec fn outcomes_view(v: Seq<(usize, ItemOutcome)>) -> Seq<(int, ItemView)> {
    v.map_values(|p: (usize, ItemOutcome)| (p.0 as int, item_view(p.1)))
}

/// The failed item with the smallest position (the first such outcome on
/// a tie), with its error.
pub open spec fn first_failed(outcomes: Seq<(int, ItemView)>) -> Option<(int, Seq<char>)>
    decreases outcomes.len(),
{
    if outcomes.len() == 0 {
        None
    } else {
        let before = first_failed(outcomes.drop_last());
        match outcomes.last().1 {
            ItemView::Failed(e) => match before {
                Some(b) => if outcomes.last().0 < b.0 { Some((outcomes.last().0, e)) } else { before },
                None => Some((outcomes.last().0, e)),
            },
            _ => before,
        }
    }
}

/// The per-item results of a fan-out over `n` items: each item's final
/// result, `null` for items that did not succeed.
pub open spec fn per_item(n: nat, outcomes: Seq<(int, ItemView)>) -> Seq<JsonView>
    decreases outcomes.len(),
{
    if outcomes.len() == 0 {
        Seq::new(n, |k: int| JsonView::Null)
    } else {
        let before = per_item(n, outcomes.drop_last());
        match outcomes.last().1 {
            ItemView::Success(v) => if 0 <= outcomes.last().0 < n { before.update(outcomes.last().0, v) } else { before },
            _ => before,
        }
    }
}

/// A task outcome as sequences.
pub enum OutcomeView {
    Success { result: JsonView, outputs: Seq<(Seq<char>, JsonView)>, attempt: int },
    Failed { error: Seq<char>, attempt: int },
    Canceled,
}

pub open spec fn outcome_view(o: TaskOutcome) -> OutcomeView {
    match o {
        TaskOutcome::Success { result, outputs, attempt } =>
            OutcomeView::Success { result: json_view(result), outputs: members_view(outputs@), attempt: attempt as int },
        TaskOutcome::Failed { error, attempt } => OutcomeView::Failed { error: error@, attempt: attempt as int },
        TaskOutcome::Canceled => OutcomeView::Canceled,
    }
}

/// The message of a parallel task failed by one of its items.
pub open spec fn item_failure(idx: int, error: Seq<char>) -> Seq<char> {
    "item "@ + decimal(idx as nat) + " failed: "@ + error
}

/// How a parallel task over `n` items ends, given its items' outcomes: a
/// cancellation cancels it; the failed item with the smallest position
/// fails it; otherwise its result is `{"items": [...]}` with each item's
/// final result (`null` for dropped items) and its outputs are extracted
/// from that.
pub open spec fn parallel_end(n: nat, outcomes: Seq<(int, ItemView)>, cancelled: bool, defs: Seq<OutputDef>) -> OutcomeView {
    if cancelled {
        OutcomeView::Canceled
    } else {
        match first_failed(outcomes) {
            Some((idx, e)) => OutcomeView::Failed { error: item_failure(idx, e), attempt: 1 },
            None => {
                let result = JsonView::Object(seq![("items"@, JsonView::Array(per_item(n, outcomes)))]);
                match outputs_of(result, defs) {
                    Ok(outputs) => OutcomeView::Success { result, outputs, attempt: 1 },
                    Err(e) => OutcomeView::Failed { error: e, attempt: 1 },
                }
            },
        }
    }
}

/// How a parallel task over `n` items ends, given its items' outcomes (in
/// the order they finished) and whether the run was canceled.
pub fn parallel_outcome(n: usize, outcomes: &Vec<(usize, ItemOutcome)>, cancelled: bool, defs: &Vec<OutputDef>) -> (r: TaskOutcome)
    requires
        forall|k: int| 0 <= k < outcomes@.len() ==> #[trigger] outcomes@[k].0 < n,
    ensures
        outcome_view(r) == parallel_end(n as nat, outcomes_view(outcomes@), cancelled, defs@),
{
    if cancelled {
        return TaskOutcome::Canceled;
    }
    let ghost ov = outcomes_view(outcomes@);
    let mut failed: Option<(usize, &String)> = None;
    let mut items: Vec<Json> = Vec::new();
    let mut k: usize = 0;
    while k < n
        invariant
            k <= n,
            items@.len() == k,
            forall|j: int| 0 <= j < k ==> #[trigger] items@[j] == Json::Null,
        decreases n - k,
    {
        items.push(Json::Null);
        k = k + 1;
    }
    proof {
        lemma_items_view(items@);
        assert(items_view(items@) =~= per_item(n as nat, ov.take(0)));
        assert(ov.take(0) =~= Seq::<(int, ItemView)>::empty());
    }
    let mut i: usize = 0;
    while i < outcomes.len()
        invariant
            i <= outcomes@.len(),
            ov == outcomes_view(outcomes@),
            ov.len() == outcomes@.len(),
            items@.len() == n,
            forall|k: int| 0 <= k < outcomes@.len() ==> #[trigger] outcomes@[k].0 < n,
            items_view(items@) == per_item(n as nat, ov.take(i as int)),
            match failed {
                Some((idx, e)) => first_failed(ov.take(i as int)) == Some((idx as int, e@)),
                None => first_failed(ov.take(i as int)) is None,
            },
        decreases outcomes@.len() - i,
    {
        proof {
            assert(ov.take(i + 1).drop_last() =~= ov.take(i as int));
            assert(ov.take(i + 1).last() == ov[i as int]);
            assert(ov[i as int] == (outcomes@[i as int].0 as int, item_view(outcomes@[i as int].1)));
            lemma_items_view(items@);
        }
        let idx = outcomes[i].0;
        match &outcomes[i].1 {
            ItemOutcome::Success(v) => {
                let ghost before = items@;
                items.set(idx, v.copy());
                proof {
                    lemma_items_view(items@);
                    assert(items_view(items@) =~= items_view(before).update(idx as int, json_view(*v)));
                }
            },
            ItemOutcome::Failed(e) => {
                let replace = match failed {
                    Some((b, _)) => idx < b,
                    None => true,
                };
                if replace {
                    failed = Some((idx, e));
                }
            },
            _ => {},
        }
        i = i + 1;
    }
    proof {
        assert(ov.take(outcomes@.len() as int) =~= ov);
    }
    if let Some((idx, e)) = failed {
        let mut m = String::new();
        push_str(&mut m, "item ");
        push_str(&mut m, decimal_u64(idx as u64).as_str());
        push_str(&mut m, " failed: ");
        push_str(&mut m, e.as_str());
        return TaskOutcome::Failed { error: m, attempt: 1 };
    }
    proof {
        lemma_items_view(items@);
    }
    let ghost iv = items_view(items@);
    let mut members: Vec<(String, Json)> = Vec::new();
    members.push(("items".to_string(), Json::Array(items)));
    proof {
        lemma_members_view(members@);
        assert(members_view(members@) =~= seq![("items"@, JsonView::Array(iv))]);
    }
    let result = Json::Object(members);
    match extract_outputs(&result, defs) {
        Ok(outputs) => TaskOutcome::Success { result, outputs, attempt: 1 },
        Err(error) => TaskOutcome::Failed { error, attempt: 1 },
    }
}

/// The message of a fan-out whose `items` template failed to render.
pub open spec fn items_render_error(e: Seq<char>) -> Seq<char> {
    "items render failed: "@ + e
}

/// The message of a fan-out whose `items` template rendered to something
/// other than an array.
pub open spec fn items_kind_error(kind: Seq<char>) -> Seq<char> {
    "items must render to an array, got "@ + kind
}

/// What a fan-out runs over, given how its `items` template rendered: the
/// elements of an array. Otherwise the task fails at attempt 1: a render
/// error is reported with the run's secrets masked, anything else by its
/// JSON type.
pub open spec fn fanout_start(rendered: Result<JsonView, ErrorView>, order: Seq<Seq<char>>) -> Result<Seq<JsonView>, OutcomeView> {
    match rendered {
        Err(e) => Err(OutcomeView::Failed { error: mask_all(items_render_error(render_error_text(e)), order), attempt: 1 }),
        Ok(v) => match v {
            JsonView::Array(items) => Ok(items),
            _ => Err(OutcomeView::Failed { error: items_kind_error(json_kind(v)), attempt: 1 }),
        },
    }
}

/// The items of a fan-out, from the result of rendering its `items`
/// template, or the outcome that ends the task before any item runs.
pub fn fanout_items(rendered: Result<Json, ExprError>, secret_values: &[String]) -> (r: Result<Vec<Json>, TaskOutcome>)
    ensures
        match r {
            Ok(items) => fanout_start(outcome(rendered), redaction_order(string_views(secret_values@))) == Ok::<Seq<JsonView>, OutcomeView>(items_view(items@)),
            Err(o) => fanout_start(outcome(rendered), redaction_order(string_views(secret_values@))) == Err::<Seq<JsonView>, OutcomeView>(outcome_view(o)),
        },
{
    match rendered {
        Err(e) => {
            let mut m = String::new();
            push_str(&mut m, "items render failed: ");
            let text = e.to_string();
            push_str(&mut m, text.as_str());
            let error = redact_str(m.as_str(), secret_values);
            Err(TaskOutcome::Failed { error, attempt: 1 })
        },
        Ok(Json::Array(items)) => Ok(items),
        Ok(v) => {
            let mut m = String::new();
            push_str(&mut m, "items must render to an array, got ");
            push_str(&mut m, json_type_name(&v));
            Err(TaskOutcome::Failed { error: m, attempt: 1 })
        },
    }
}

// ---------------------------------------------------------------------------
// One item's chain of children
// ---------------------------------------------------------------------------

/// The label of a child task's lines for one item: `<child>[<idx>]`.
pub open spec fn item_label(child_id: Seq<char>, idx: nat) -> Seq<char> {
    child_id + "["@ + decimal(idx) + "]"@
}

/// The label of a child task's lines for one item.
pub fn item_task_label(child_id: &str, idx: usize) -> (s: String)
    ensures
        s@ == item_label(child_id@, idx as nat),
{
    let mut s = String::new();
    push_str(&mut s, child_id);
    push_str(&mut s, "[");
    push_str(&mut s, decimal_u64(idx as u64).as_str());
    push_str(&mut s, "]");
    s
}

/// How an item ends: what its row records (status, attempt, error), the
/// line logged, whether the rest of the fan-out is aborted, and the
/// outcome.
#[derive(Debug)]
pub struct ItemFinish {
    pub status: String,
    pub attempt: u32,
    pub error: Option<String>,
    pub log: Option<LogLine>,
    pub cancel_fanout: bool,
    pub outcome: ItemOutcome,
}

/// An item's progress through its children: the highest attempt any child
/// reached, and whether the item has started.
#[derive(Debug)]
pub struct ItemChain {
    pub max_attempt: u32,
    pub started: bool,
}

/// Whether an optional line is the given one.
pub open spec fn logs_line(l: Option<LogLine>, level: LogLevel, task: Seq<char>, message: Seq<char>) -> bool {
    match l {
        Some(x) => line_view(x) == (level, task, message),
        None => false,
    }
}

/// The larger of two attempts.
pub open spec fn max_of(a: u32, b: u32) -> u32 {
    if a >= b { a } else { b }
}

/// The message of an item whose child is not a plugin task.
pub open spec fn not_plugin_error(child_id: Seq<char>) -> Seq<char> {
    "child task \""@ + child_id + "\" is not a plugin task"@
}

impl ItemChain {
    /// An item before any attempt.
    pub fn new() -> (c: ItemChain)
        ensures
            c.max_attempt == 1,
            !c.started,
    {
        ItemChain { max_attempt: 1, started: false }
    }

    /// Records the start of an attempt of one of the item's children;
    /// `true` when this is the item's first attempt (its start is stamped).
    pub fn record_attempt(&mut self, attempt: u32) -> (first: bool)
        ensures
            first == !old(self).started,
            final(self).started,
            final(self).max_attempt == max_of(old(self).max_attempt, attempt),
    {
        if attempt > self.max_attempt {
            self.max_attempt = attempt;
        }
        let first = !self.started;
        self.started = true;
        first
    }

    /// An item that never starts because the fan-out or the run was
    /// canceled first.
    pub fn canceled_before_start() -> (f: ItemFinish)
        ensures
            f.status@ == "canceled"@,
            f.attempt == 0,
            f.error is None,
            f.log is None,
            !f.cancel_fanout,
            f.outcome is Canceled,
    {
        ItemFinish { status: "canceled".to_string(), attempt: 0, error: None, log: None, cancel_fanout: false, outcome: ItemOutcome::Canceled }
    }

    /// An item whose child is not a plugin task: it fails and aborts the
    /// fan-out.
    pub fn not_plugin(&self, child_id: &str) -> (f: ItemFinish)
        ensures
            f.status@ == "failed"@,
            f.attempt == self.max_attempt,
            opt_view(f.error) == Some(not_plugin_error(child_id@)),
            f.log is None,
            f.cancel_fanout,
            item_view(f.outcome) == ItemView::Failed(not_plugin_error(child_id@)),
    {
        let mut e = String::new();
        push_str(&mut e, "child task \"");
        push_str(&mut e, child_id);
        push_str(&mut e, "\" is not a plugin task");
        ItemFinish {
            status: "failed".to_string(),
            attempt: self.max_attempt,
            error: Some(e.clone()),
            log: None,
            cancel_fanout: true,
            outcome: ItemOutcome::Failed(e),
        }
    }

    /// Records how a child ended. `None`: it succeeded and the item goes on
    /// to its next child. Otherwise the item ends: canceled with the run;
    /// dropped when the child fails with `on_error: continue`; failed, and
    /// the fan-out aborted, when it fails with `on_error: fail`.
    pub fn child_done(&mut self, idx: usize, child_id: &str, outcome: &TaskOutcome, on_error: OnError) -> (r: Option<ItemFinish>)
        ensures
            final(self).started == old(self).started,
            match outcome {
                TaskOutcome::Success { attempt, .. } => r is None
                    && final(self).max_attempt == max_of(old(self).max_attempt, *attempt),
                TaskOutcome::Canceled => final(self).max_attempt == old(self).max_attempt
                    && (r matches Some(f) && f.status@ == "canceled"@ && f.attempt == old(self).max_attempt
                    && f.error is None && f.log is None && !f.cancel_fanout && f.outcome is Canceled),
                TaskOutcome::Failed { error, attempt } => {
                    let m = max_of(old(self).max_attempt, *attempt);
                    &&& final(self).max_attempt == m
                    &&& r matches Some(f)
                    &&& f.attempt == m
                    &&& opt_view(f.error) == Some(error@)
                    &&& on_error == OnError::Continue ==> (f.status@ == "dropped"@ && !f.cancel_fanout
                        && f.outcome is Dropped
                        && logs_line(f.log, LogLevel::Warn, item_label(child_id@, idx as nat),
                            "item "@ + decimal(idx as nat) + " dropped: "@ + error@))
                    &&& on_error == OnError::Fail ==> (f.status@ == "failed"@ && f.cancel_fanout
                        && item_view(f.outcome) == ItemView::Failed(error@)
                        && logs_line(f.log, LogLevel::Error, item_label(child_id@, idx as nat),
                            "item "@ + decimal(idx as nat) + " failed: "@ + error@))
                },
            },
    {
        match outcome {
            TaskOutcome::Success { attempt, .. } => {
                if *attempt > self.max_attempt {
                    self.max_attempt = *attempt;
                }
                None
            },
            TaskOutcome::Canceled => Some(ItemFinish {
                status: "canceled".to_string(),
                attempt: self.max_attempt,
                error: None,
                log: None,
                cancel_fanout: false,
                outcome: ItemOutcome::Canceled,
            }),
            TaskOutcome::Failed { error, attempt } => {
                if *attempt > self.max_attempt {
                    self.max_attempt = *attempt;
                }
                let label = item_task_label(child_id, idx);
                let mut m = String::new();
                push_str(&mut m, "item ");
                push_str(&mut m, decimal_u64(idx as u64).as_str());
                match on_error {
                    OnError::Continue => {
                        push_str(&mut m, " dropped: ");
                        push_str(&mut m, error.as_str());
                        Some(ItemFinish {
                            status: "dropped".to_string(),
                            attempt: self.max_attempt,
                            error: Some(error.clone()),
                            log: Some(LogLine { level: LogLevel::Warn, task: label, message: m }),
                            cancel_fanout: false,
                            outcome: ItemOutcome::Dropped,
                        })
                    },
                    OnError::Fail => {
                        push_str(&mut m, " failed: ");
                        push_str(&mut m, error.as_str());
                        Some(ItemFinish {
                            status: "failed".to_string(),
                            attempt: self.max_attempt,
                            error: Some(error.clone()),
                            log: Some(LogLine { level: LogLevel::Error, task: label, message: m }),
                            cancel_fanout: true,
                            outcome: ItemOutcome::Failed(error.clone()),
                        })
                    },
                }
            },
        }
    }

    /// An item whose children all succeeded, with the last child's result.
    pub fn succeeded(&self, last_result: Json) -> (f: ItemFinish)
        ensures
            f.status@ == "success"@,
            f.attempt == self.max_attempt,
            f.error is None,
            f.log is None,
            !f.cancel_fanout,
            item_view(f.outcome) == ItemView::Success(json_view(last_result)),
    {
        ItemFinish { status: "success".to_string(), attempt: self.max_attempt, error: None, log: None, cancel_fanout: false, outcome: ItemOutcome::Success(last_result) }
    }
}

/// Each retry waits twice as long as the one before, until the wait
/// saturates at `u64::MAX` or the exponent reaches its cap of 62.
pub proof fn lemma_backoff_doubles(base: int, attempt: int)
    requires
        0 <= base <= u64::MAX,
        1 <= attempt < 62,
    ensures
        backoff(base, attempt + 1) == if 2 * backoff(base, attempt) > u64::MAX { u64::MAX as int } else { 2 * backoff(base, attempt) },
{
    let k = (attempt - 1) as nat;
    lemma_pow2_unfold(k + 1);
    assert(base * pow2(k + 1) == 2 * (base * pow2(k))) by (nonlinear_arith)
        requires
            pow2(k + 1) == 2 * pow2(k);
    vstd::arithmetic::power2::lemma_pow2_pos(k);
    assert(base * pow2(k) >= 0) by (nonlinear_arith)
        requires
            base >= 0,
            pow2(k) > 0;
}

} // verus!
