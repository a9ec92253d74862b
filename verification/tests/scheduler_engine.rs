use orchestrator::api::flows::schedule_human;
use orchestrator::api::runs::{tasks_done, tasks_total};
use orchestrator::db::{ScheduleRow, TaskRunRow};
use orchestrator::engine::inputs::{
    finalize_inputs_at, parse_default, references_secrets, resolve_inputs_at,
};
use orchestrator::engine::outputs::{extract_outputs, extract_path};
use orchestrator::engine::run::{
    after_attempt_error, backoff_secs, fanout_items, max_attempts, parallel_outcome, task_executor,
    AttemptStep, ItemChain, ItemOutcome, RunProgress, TaskOutcome, TaskStep,
};
use orchestrator::expr::ExprError;
use orchestrator::plugins::registry::PluginRegistry;
use orchestrator::json::{Json, Number};
use orchestrator::model::{
    Catchup, FlowDefinition, InputDef, InputType, OnError, OutputDef, RetryPolicy, TriggerDef,
    VarDef,
};
use orchestrator::plugins::LogLevel;
use orchestrator::scheduler::{
    due_rows, next_scheduled, parse_trigger, plan_fire, FirePlan, SchedulerError, CATCHUP_CAP,
};

/// Builds a value from JSON text.
fn j(text: &str) -> Json {
    let v: serde_json::Value = serde_json::from_str(text).expect("test JSON");
    conv(&v)
}

fn conv(v: &serde_json::Value) -> Json {
    match v {
        serde_json::Value::Null => Json::Null,
        serde_json::Value::Bool(b) => Json::Bool(*b),
        serde_json::Value::Number(n) => {
            if let Some(u) = n.as_u64() {
                Json::Number(Number::PosInt(u))
            } else if let Some(i) = n.as_i64() {
                Json::Number(Number::NegInt(i))
            } else {
                Json::Number(Number::Float(n.to_string()))
            }
        }
        serde_json::Value::String(s) => Json::String(s.clone()),
        serde_json::Value::Array(a) => Json::Array(a.iter().map(conv).collect()),
        serde_json::Value::Object(m) => {
            Json::Object(m.iter().map(|(k, x)| (k.clone(), conv(x))).collect())
        }
    }
}

fn members(text: &str) -> Vec<(String, Json)> {
    match j(text) {
        Json::Object(m) => m,
        other => panic!("not an object: {other:?}"),
    }
}

fn secs(text: &str) -> i64 {
    chrono::DateTime::parse_from_rfc3339(text).unwrap().timestamp()
}

fn trigger(id: &str, cron: &str, catchup: Catchup) -> TriggerDef {
    TriggerDef {
        id: id.to_string(),
        trigger_type: "schedule".to_string(),
        cron: cron.to_string(),
        timezone: "UTC".to_string(),
        catchup,
        enabled: true,
    }
}

fn flow(triggers: Vec<TriggerDef>, inputs: Vec<InputDef>, variables: Vec<VarDef>) -> FlowDefinition {
    FlowDefinition {
        name: "f".to_string(),
        namespace: "default".to_string(),
        description: String::new(),
        queue: "local".to_string(),
        inputs,
        variables,
        triggers,
        tasks: Vec::new(),
    }
}

fn launches(plan: FirePlan) -> (Vec<i64>, Option<i64>) {
    match plan {
        FirePlan::Fire { launch, next } => (launch, next),
        other => panic!("expected a firing, got {other:?}"),
    }
}

// ---- scheduler ----

#[test]
fn catchup_all_fires_every_due_occurrence_ascending() {
    let def = flow(vec![trigger("t", "*/5 * * * *", Catchup::All)], vec![], vec![]);
    let due = secs("2026-01-01T00:00:00Z");
    let now = secs("2026-01-01T00:10:03Z");
    let (launch, next) = launches(plan_fire("f", &def, "t", false, due, now).unwrap());
    assert_eq!(
        launch,
        vec![secs("2026-01-01T00:00:00Z"), secs("2026-01-01T00:05:00Z"), secs("2026-01-01T00:10:00Z")]
    );
    assert_eq!(next, Some(secs("2026-01-01T00:15:00Z")));
}

#[test]
fn catchup_latest_fires_only_the_newest() {
    let def = flow(vec![trigger("t", "*/5 * * * *", Catchup::Latest)], vec![], vec![]);
    let due = secs("2026-01-01T00:00:00Z");
    let now = secs("2026-01-01T00:10:30Z");
    let (launch, _) = launches(plan_fire("f", &def, "t", false, due, now).unwrap());
    assert_eq!(launch, vec![secs("2026-01-01T00:10:00Z")]);
}

#[test]
fn catchup_none_fires_only_a_live_occurrence() {
    let def = flow(vec![trigger("t", "*/5 * * * *", Catchup::Skip)], vec![], vec![]);
    let due = secs("2026-01-01T00:00:00Z");
    let (live, _) = launches(plan_fire("f", &def, "t", false, due, secs("2026-01-01T00:10:03Z")).unwrap());
    assert_eq!(live, vec![secs("2026-01-01T00:10:00Z")]);
    let (backlog, next) = launches(plan_fire("f", &def, "t", false, due, secs("2026-01-01T00:10:30Z")).unwrap());
    assert!(backlog.is_empty());
    assert_eq!(next, Some(secs("2026-01-01T00:15:00Z")));
}

#[test]
fn catchup_all_is_capped_at_the_most_recent() {
    let def = flow(vec![trigger("t", "* * * * *", Catchup::All)], vec![], vec![]);
    let due = secs("2026-01-01T00:00:00Z");
    let now = secs("2026-01-01T03:00:00Z");
    let (launch, _) = launches(plan_fire("f", &def, "t", false, due, now).unwrap());
    assert_eq!(launch.len(), CATCHUP_CAP);
    assert_eq!(*launch.last().unwrap(), now);
    assert_eq!(launch[0], now - 99 * 60);
}

#[test]
fn paused_flow_only_advances() {
    let def = flow(vec![trigger("t", "*/5 * * * *", Catchup::All)], vec![], vec![]);
    let plan = plan_fire("f", &def, "t", true, secs("2026-01-01T00:00:00Z"), secs("2026-01-01T00:12:00Z")).unwrap();
    match plan {
        FirePlan::Advance { next } => assert_eq!(next, Some(secs("2026-01-01T00:15:00Z"))),
        other => panic!("expected an advance, got {other:?}"),
    }
}

#[test]
fn stale_row_is_reconciled_without_firing() {
    let def = flow(vec![trigger("t", "*/5 * * * *", Catchup::All)], vec![], vec![]);
    assert!(matches!(plan_fire("f", &def, "gone", false, 0, 10).unwrap(), FirePlan::Stale));
}

#[test]
fn bad_cron_and_timezone_are_reported() {
    let t = trigger("t", "61 * * * *", Catchup::All);
    let err = parse_trigger("f", &t).unwrap_err();
    assert!(matches!(err, SchedulerError::BadCron { .. }));
    assert!(err.to_string().starts_with("invalid cron for flow `f` trigger `t`: "));
    let mut t = trigger("t", "* * * * *", Catchup::All);
    t.timezone = "Mars/Olympus".to_string();
    let err = parse_trigger("f", &t).unwrap_err();
    assert_eq!(err.to_string(), "unknown timezone `Mars/Olympus` for flow `f` trigger `t`");
}

#[test]
fn due_rows_skip_disabled_future_and_unparseable() {
    let row = |enabled: bool, next: Option<&str>| ScheduleRow {
        flow_id: "f".to_string(),
        flow_name: "F".to_string(),
        flow_paused: false,
        trigger_id: "t".to_string(),
        enabled,
        next_fire_at: next.map(|s| s.to_string()),
        last_fired_at: None,
    };
    let rows = vec![
        row(true, Some("2026-01-01T00:00:00.000Z")),
        row(false, Some("2026-01-01T00:00:00.000Z")),
        row(true, Some("2026-01-01T00:10:00.000Z")),
        row(true, Some("garbage")),
        row(true, None),
        row(true, Some("2026-01-01T00:05:00.500Z")),
    ];
    let now = secs("2026-01-01T00:05:00Z");
    assert_eq!(due_rows(&rows, now, 0), vec![(0, secs("2026-01-01T00:00:00Z"))]);
    assert_eq!(
        due_rows(&rows, now, 600_000_000),
        vec![(0, secs("2026-01-01T00:00:00Z")), (5, now)]
    );
}

// ---- run progress ----

#[test]
fn failed_task_fails_run_and_skips_the_rest() {
    let mut p = RunProgress::new();
    assert_eq!(p.before_task(false), TaskStep::Execute);
    let rec = p.after_task("a", &TaskOutcome::Failed { error: "boom".to_string(), attempt: 2 }, OnError::Fail);
    assert_eq!(rec.status, "failed");
    assert_eq!(rec.attempt, 2);
    assert_eq!(rec.logs[0].level, LogLevel::Error);
    assert_eq!(p.before_task(false), TaskStep::Skip);
    assert_eq!(p.final_status(), ("failed".to_string(), Some("task a: boom".to_string())));
}

#[test]
fn continue_on_error_keeps_the_run_going() {
    let mut p = RunProgress::new();
    let rec = p.after_task("a", &TaskOutcome::Failed { error: "boom".to_string(), attempt: 1 }, OnError::Continue);
    assert_eq!(rec.logs.len(), 2);
    assert_eq!(rec.logs[1].message, "task a failed; continuing (on_error=continue)");
    assert_eq!(p.before_task(false), TaskStep::Execute);
    assert_eq!(p.final_status(), ("success".to_string(), None));
}

#[test]
fn cancellation_wins_over_everything() {
    let mut p = RunProgress::new();
    assert_eq!(p.before_task(true), TaskStep::Stop);
    assert_eq!(p.before_task(false), TaskStep::Stop);
    assert_eq!(p.final_status(), ("canceled".to_string(), None));
    let mut q = RunProgress::new();
    let rec = q.after_task("a", &TaskOutcome::Canceled, OnError::Fail);
    assert_eq!(rec.status, "canceled");
    assert_eq!(q.final_status().0, "canceled");
}

// ---- retries ----

#[test]
fn backoff_doubles_and_saturates() {
    assert_eq!(backoff_secs(2, 1), 2);
    assert_eq!(backoff_secs(2, 3), 8);
    assert_eq!(backoff_secs(0, 9), 0);
    assert_eq!(backoff_secs(3600, 70), u64::MAX);
    assert_eq!(backoff_secs(1, 100), 1u64 << 62);
}

#[test]
fn retry_decisions() {
    assert_eq!(after_attempt_error(true, 1, 3, 2, false), AttemptStep::Retry { backoff: 2 });
    assert_eq!(after_attempt_error(true, 3, 3, 2, false), AttemptStep::Fail);
    assert_eq!(after_attempt_error(false, 1, 3, 2, false), AttemptStep::Fail);
    assert_eq!(after_attempt_error(true, 1, 3, 2, true), AttemptStep::Canceled);
    let policy = Some(RetryPolicy { retry_type: "exponential".to_string(), max_attempts: 0, base_seconds: 5 });
    assert_eq!(max_attempts(&policy), 1);
    assert_eq!(max_attempts(&None), 1);
}

// ---- outputs ----

#[test]
fn extract_path_walks_keys_and_indices() {
    let result = j("{\"body\": {\"ids\": [7, 8, 9]}, \"status\": 200}");
    assert_eq!(extract_path(&result, "result.body.ids[1]"), Some(&j("8")));
    assert_eq!(extract_path(&result, "result"), Some(&result));
    assert_eq!(extract_path(&result, "result.body.ids[3]"), None);
    assert_eq!(extract_path(&result, "result..x"), None);
    assert_eq!(extract_path(&result, "result.body.ids[1"), None);
    assert_eq!(extract_path(&result, "body.ids"), None);
}

#[test]
fn extract_outputs_names_the_missing_path() {
    let result = j("{\"a\": 1}");
    let defs = vec![
        OutputDef { name: "x".to_string(), output_type: InputType::Int, extract: "result.a".to_string() },
        OutputDef { name: "y".to_string(), output_type: InputType::Int, extract: "result.b".to_string() },
    ];
    assert_eq!(
        extract_outputs(&result, &defs).unwrap_err(),
        "output \"y\": path \"result.b\" not found in task result"
    );
    let ok = extract_outputs(&result, &defs[..1].to_vec()).unwrap();
    assert_eq!(Json::Object(ok), j("{\"x\": 1}"));
}

// ---- fan-out ----

#[test]
fn parallel_result_collects_items_and_drops_nulls() {
    let outcomes = vec![
        (1, ItemOutcome::Dropped),
        (0, ItemOutcome::Success(j("\"a\""))),
        (2, ItemOutcome::Success(j("3"))),
    ];
    match parallel_outcome(3, &outcomes, false, &vec![]) {
        TaskOutcome::Success { result, attempt, .. } => {
            assert_eq!(result, j("{\"items\": [\"a\", null, 3]}"));
            assert_eq!(attempt, 1);
        }
        other => panic!("unexpected {other:?}"),
    }
}

#[test]
fn parallel_first_failed_item_fails_the_task() {
    let outcomes = vec![
        (4, ItemOutcome::Failed("late".to_string())),
        (2, ItemOutcome::Failed("early".to_string())),
        (0, ItemOutcome::Success(j("1"))),
    ];
    match parallel_outcome(5, &outcomes, false, &vec![]) {
        TaskOutcome::Failed { error, .. } => assert_eq!(error, "item 2 failed: early"),
        other => panic!("unexpected {other:?}"),
    }
    assert!(matches!(parallel_outcome(5, &outcomes, true, &vec![]), TaskOutcome::Canceled));
}

#[test]
fn item_chain_drops_or_fails() {
    let mut chain = ItemChain::new();
    assert!(chain.record_attempt(1));
    assert!(!chain.record_attempt(2));
    let f = chain
        .child_done(3, "c", &TaskOutcome::Failed { error: "bad".to_string(), attempt: 2 }, OnError::Continue)
        .unwrap();
    assert_eq!(f.status, "dropped");
    assert_eq!(f.attempt, 2);
    assert_eq!(f.log.unwrap().message, "item 3 dropped: bad");
    let mut chain = ItemChain::new();
    let f = chain
        .child_done(0, "c", &TaskOutcome::Failed { error: "bad".to_string(), attempt: 1 }, OnError::Fail)
        .unwrap();
    assert!(f.cancel_fanout);
    assert_eq!(f.log.unwrap().task, "c[0]");
}

// ---- inputs ----

fn input(id: &str, t: InputType, required: bool, default: Option<&str>) -> InputDef {
    InputDef { id: id.to_string(), input_type: t, required, default: default.map(|d| d.to_string()) }
}

#[test]
fn secret_references_are_detected() {
    assert!(references_secrets("Bearer {{ secrets.T }}"));
    assert!(references_secrets("{{ secrets }}"));
    assert!(references_secrets("{{ secrets[0] }}"));
    assert!(!references_secrets("{{ secretsx.T }}"));
    assert!(!references_secrets("{{ inputs.a }}"));
    assert!(!references_secrets("{{ broken"));
}

#[test]
fn defaults_are_typed() {
    assert_eq!(parse_default(InputType::Array, j("\"[1, 2]\"")).unwrap(), j("[1, 2]"));
    assert_eq!(parse_default(InputType::Int, j("\"7\"")).unwrap(), j("7"));
    assert_eq!(
        parse_default(InputType::Int, j("\"seven\"")).unwrap_err(),
        "value \"seven\" is not valid INT"
    );
    assert_eq!(
        parse_default(InputType::Boolean, j("\"[true]\"")).unwrap_err(),
        "value rendered to array, expected BOOLEAN"
    );
    assert_eq!(parse_default(InputType::String, j("\"x\"")).unwrap(), j("\"x\""));
}

#[test]
fn resolve_collects_every_problem() {
    let def = flow(
        vec![],
        vec![
            input("n", InputType::Int, true, None),
            input("s", InputType::String, false, Some("{{ vars.base }}/x")),
            input("req", InputType::String, true, None),
            input("tok", InputType::String, false, Some("{{ secrets.T }}")),
        ],
        vec![VarDef { id: "base".to_string(), value: "http://h".to_string() }],
    );
    let ok = resolve_inputs_at(&def, members("{\"n\": 3, \"req\": \"r\"}"), "2026-01-01T00:00:00Z").unwrap();
    assert_eq!(
        Json::Object(ok),
        j("{\"n\": 3, \"req\": \"r\", \"s\": \"http://h/x\", \"tok\": \"{{ secrets.T }}\"}")
    );
    let errs = resolve_inputs_at(&def, members("{\"n\": \"three\", \"zz\": 1, \"aa\": 2}"), "2026-01-01T00:00:00Z")
        .unwrap_err();
    assert_eq!(
        errs,
        vec![
            "input \"n\": expected INT, got string".to_string(),
            "input \"req\" is required".to_string(),
            "unknown input \"aa\"".to_string(),
            "unknown input \"zz\"".to_string(),
        ]
    );
}

#[test]
fn finalize_renders_secrets_and_fills_defaults() {
    let defs = vec![
        input("tok", InputType::String, false, None),
        input("d", InputType::Int, false, Some("41")),
        input("need", InputType::String, true, None),
    ];
    let stored = j("{\"tok\": \"Bearer {{ secrets.T }}\", \"need\": \"x\"}");
    let out = finalize_inputs_at(&defs, stored, vec![], members("{\"T\": \"s3cr3t\"}"), "2026-01-01T00:00:00Z")
        .unwrap();
    assert_eq!(Json::Object(out), j("{\"d\": 41, \"need\": \"x\", \"tok\": \"Bearer s3cr3t\"}"));
    let err = finalize_inputs_at(&defs, j("{}"), vec![], vec![], "2026-01-01T00:00:00Z").unwrap_err();
    assert_eq!(err, "input \"need\" is required and has no value");
}

// ---- run and flow summaries ----

#[test]
fn schedule_label_takes_first_enabled_schedule() {
    assert_eq!(schedule_human(&flow(vec![], vec![], vec![])), "manual");
    let mut off = trigger("a", "0 9 * * *", Catchup::Skip);
    off.enabled = false;
    let mut hook = trigger("b", "15 * * * *", Catchup::Skip);
    hook.trigger_type = "webhook".to_string();
    let on = trigger("c", "0 8 * * 1", Catchup::Skip);
    let later = trigger("d", "0 9 * * *", Catchup::Skip);
    assert_eq!(schedule_human(&flow(vec![off.clone(), hook.clone()], vec![], vec![])), "manual");
    assert_eq!(schedule_human(&flow(vec![off, hook, on, later], vec![], vec![])), "weekly · Mon");
    assert_eq!(
        schedule_human(&flow(vec![trigger("x", "*/5 * * * *", Catchup::Skip)], vec![], vec![])),
        "*/5 * * * *"
    );
}

fn task_row(status: &str) -> TaskRunRow {
    TaskRunRow {
        id: 1,
        run_id: 1,
        task_id: "t".to_string(),
        status: status.to_string(),
        attempt: 1,
        result: None,
        outputs: None,
        error: None,
        created_at: None,
        started_at: None,
        finished_at: None,
    }
}

#[test]
fn run_summary_counts_finished_tasks() {
    let rows = vec![
        task_row("success"),
        task_row("running"),
        task_row("failed"),
        task_row("pending"),
        task_row("canceled"),
        task_row("skipped"),
    ];
    assert_eq!(tasks_done(&rows), 4);
    assert_eq!(tasks_done(&Vec::new()), 0);
    let def = flow(vec![], vec![], vec![]);
    assert_eq!(tasks_total(Some(&def)), 0);
    assert_eq!(tasks_total(None), 0);
}

#[test]
fn dashboard_next_fire_is_the_soonest_live_schedule() {
    let row = |flow: &str, enabled: bool, paused: bool, next: Option<&str>| ScheduleRow {
        flow_id: flow.to_string(),
        flow_name: flow.to_uppercase(),
        flow_paused: paused,
        trigger_id: "t".to_string(),
        enabled,
        next_fire_at: next.map(|s| s.to_string()),
        last_fired_at: None,
    };
    let rows = vec![
        row("a", true, false, Some("2026-01-02T00:00:00.000Z")),
        row("b", false, false, Some("2026-01-01T00:00:00.000Z")),
        row("c", true, true, Some("2026-01-01T00:00:00.000Z")),
        row("d", true, false, Some("2026-01-01T12:00:00.000Z")),
        row("e", true, false, None),
        row("f", true, false, Some("2026-01-01T12:00:00.000Z")),
    ];
    assert_eq!(next_scheduled(&rows), Some(("d".to_string(), "2026-01-01T12:00:00.000Z".to_string())));
    assert_eq!(next_scheduled(&rows[1..3].to_vec()), None);
    assert_eq!(next_scheduled(&Vec::new()), None);
}

#[test]
fn fanout_runs_over_array_elements() {
    match fanout_items(Ok(j("[1, \"a\", {\"b\": null}]")), &[]) {
        Ok(items) => assert_eq!(items, vec![j("1"), j("\"a\""), j("{\"b\": null}")]),
        Err(other) => panic!("unexpected {other:?}"),
    }
    match fanout_items(Ok(j("[]")), &[]) {
        Ok(items) => assert!(items.is_empty()),
        Err(other) => panic!("unexpected {other:?}"),
    }
}

#[test]
fn fanout_rejects_items_that_are_not_an_array() {
    let secrets = vec!["object".to_string()];
    for (text, kind) in [("{\"a\": 1}", "object"), ("\"x\"", "string"), ("3", "number"), ("null", "null"), ("true", "boolean")] {
        match fanout_items(Ok(j(text)), &secrets) {
            Err(TaskOutcome::Failed { error, attempt }) => {
                assert_eq!(error, format!("items must render to an array, got {kind}"));
                assert_eq!(attempt, 1);
            }
            other => panic!("unexpected {other:?}"),
        }
    }
}

#[test]
fn fanout_render_error_is_masked() {
    let secrets = vec!["tok-1".to_string(), String::new()];
    match fanout_items(Err(ExprError::render("no value for tok-1".to_string())), &secrets) {
        Err(TaskOutcome::Failed { error, attempt }) => {
            assert_eq!(error, "items render failed: no value for ***");
            assert_eq!(attempt, 1);
        }
        other => panic!("unexpected {other:?}"),
    }
    match fanout_items(Err(ExprError::at("unclosed".to_string(), 4)), &[]) {
        Err(TaskOutcome::Failed { error, .. }) => assert_eq!(error, "items render failed: unclosed (at byte offset 4)"),
        other => panic!("unexpected {other:?}"),
    }
}

#[test]
fn unknown_task_type_fails_before_any_attempt() {
    let mut registry: PluginRegistry<u8> = PluginRegistry::new();
    registry.register("http.request".to_string(), 7);
    match task_executor(&registry, "http.request") {
        Ok(e) => assert_eq!(*e, 7),
        Err(other) => panic!("unexpected {other:?}"),
    }
    match task_executor(&registry, "slack.notify") {
        Err(TaskOutcome::Failed { error, attempt }) => {
            assert_eq!(error, "unknown task type \"slack.notify\"");
            assert_eq!(attempt, 0);
        }
        other => panic!("unexpected {other:?}"),
    }
}
