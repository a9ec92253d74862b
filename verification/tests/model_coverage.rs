use orchestrator::model::yaml::{read_flow_yaml, yaml_header};
use orchestrator::engine::run::task_on_error;
use orchestrator::json::Json;
use orchestrator::model::validate::coverage_report;
use orchestrator::model::{FlowDefinition, OnError, ParallelTask, PluginTask, TaskDef, TaskKind};
use orchestrator::plugins::PluginCapability;

fn plugin_task(id: &str, type_id: &str) -> TaskDef {
    TaskDef {
        id: id.to_string(),
        kind: TaskKind::Plugin(PluginTask {
            type_id: type_id.to_string(),
            retry: None,
            timeout_seconds: None,
            on_error: OnError::Fail,
            config: Json::Object(vec![]),
            outputs: vec![],
        }),
    }
}

fn flow(queue: &str, tasks: Vec<TaskDef>) -> FlowDefinition {
    FlowDefinition {
        name: "f".to_string(),
        namespace: "default".to_string(),
        description: String::new(),
        queue: queue.to_string(),
        inputs: vec![],
        variables: vec![],
        triggers: vec![],
        tasks,
    }
}

/// A one-task `email`-queue flow using `slack.notify`.
fn slack_flow() -> FlowDefinition {
    flow("email", vec![plugin_task("t", "slack.notify")])
}

fn reference(pairs: &[(&str, &str)]) -> Vec<(String, String)> {
    pairs.iter().map(|(k, v)| (k.to_string(), v.to_string())).collect()
}

fn cap(type_id: &str, version: Option<&str>) -> PluginCapability {
    PluginCapability { type_id: type_id.to_string(), version: version.map(str::to_string) }
}

#[test]
fn warns_when_plugin_missing_on_remote_queue() {
    let report = coverage_report(&slack_flow(), &reference(&[]), &[]);
    assert!(report.errors.is_empty());
    assert_eq!(report.warnings.len(), 1, "{report:?}");
    assert_eq!(report.warnings[0].path, "tasks[0]");
    assert!(report.warnings[0].message.contains("slack.notify"));
    assert!(report.warnings[0].message.contains("email"));
}

#[test]
fn silent_when_queue_covers_the_plugin_at_same_version() {
    let report = coverage_report(
        &slack_flow(),
        &reference(&[("slack.notify", "1.0.0")]),
        &[cap("slack.notify", Some("1.0.0"))],
    );
    assert!(report.errors.is_empty(), "{report:?}");
    assert!(report.warnings.is_empty(), "{report:?}");
}

#[test]
fn version_skew_is_a_blocking_error() {
    let report = coverage_report(
        &slack_flow(),
        &reference(&[("slack.notify", "1.0.0")]),
        &[cap("slack.notify", Some("2.0.0"))],
    );
    assert!(report.warnings.is_empty(), "{report:?}");
    assert_eq!(report.errors.len(), 1, "{report:?}");
    assert_eq!(report.errors[0].path, "tasks[0]");
    let msg = &report.errors[0].message;
    assert!(msg.contains("1.0.0") && msg.contains("2.0.0"), "{msg}");
}

#[test]
fn no_skew_when_versions_unknown() {
    let report = coverage_report(
        &slack_flow(),
        &reference(&[("slack.notify", "1.0.0")]),
        &[cap("slack.notify", None)],
    );
    assert!(report.errors.is_empty(), "{report:?}");
    assert!(report.warnings.is_empty(), "{report:?}");
}

#[test]
fn skips_local_queue_entirely() {
    let d = flow("local", vec![plugin_task("t", "slack.notify")]);
    let report = coverage_report(&d, &reference(&[]), &[]);
    assert!(report.errors.is_empty() && report.warnings.is_empty());
}

#[test]
fn checks_parallel_children() {
    let d = flow(
        "email",
        vec![TaskDef {
            id: "p".to_string(),
            kind: TaskKind::Parallel(ParallelTask {
                items: "{{ inputs.x }}".to_string(),
                concurrency: 2,
                tasks: vec![plugin_task("c", "slack.notify")],
                outputs: vec![],
            }),
        }],
    );
    let report = coverage_report(&d, &reference(&[]), &[]);
    assert_eq!(report.warnings.len(), 1, "{report:?}");
    assert_eq!(report.warnings[0].path, "tasks[0].tasks[0]");
}

#[test]
fn deduplicates_repeated_type_ids() {
    let d = flow("email", vec![plugin_task("a", "slack.notify"), plugin_task("b", "slack.notify")]);
    let report = coverage_report(&d, &reference(&[]), &[]);
    assert_eq!(report.warnings.len(), 1, "{report:?}");
}

#[test]
fn parallel_failure_always_fails_the_run() {
    let mut t = plugin_task("t", "http.request");
    assert_eq!(task_on_error(&t.kind), OnError::Fail);
    if let TaskKind::Plugin(pt) = &mut t.kind {
        pt.on_error = OnError::Continue;
    }
    assert_eq!(task_on_error(&t.kind), OnError::Continue);
    let par = TaskKind::Parallel(ParallelTask {
        items: "{{ inputs.list }}".to_string(),
        concurrency: 2,
        tasks: vec![t],
        outputs: vec![],
    });
    assert_eq!(task_on_error(&par), OnError::Fail);
}

#[test]
fn yaml_export_starts_with_the_flow_id() {
    assert_eq!(yaml_header("daily_report").unwrap(), "id: daily_report\n");
    assert_eq!(yaml_header("two\nlines").unwrap_err().message, "flow id must be a single-line string");
}

#[test]
fn yaml_import_takes_the_id_out() {
    let (id, rest) = read_flow_yaml("id: daily\nname: Daily\ntasks: []\n").unwrap();
    assert_eq!(id, "daily");
    assert_eq!(
        rest,
        Json::Object(vec![("name".to_string(), Json::String("Daily".to_string())), ("tasks".to_string(), Json::Array(vec![]))])
    );
    assert_eq!(read_flow_yaml("name: x\n").unwrap_err().message, "missing top-level `id`");
    assert_eq!(read_flow_yaml("id: 3\n").unwrap_err().message, "top-level `id` must be a string");
    assert_eq!(read_flow_yaml("- a\n- b\n").unwrap_err().message, "flow document must be a mapping");
    assert!(read_flow_yaml("id: [\n").unwrap_err().message.starts_with("invalid YAML: "));
}
