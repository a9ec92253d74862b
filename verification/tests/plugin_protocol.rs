use orchestrator::json::{Json, Number};
use orchestrator::plugins::protocol::{
    bundle_check, oneshot_line, plugin_validation, request_step, route_line, start_failed, validation_problems,
    BundleCheck, LineStep, PluginEvent, RequestAction, RequestInput, Routed,
};
use orchestrator::plugins::{validate_against_manifest, FieldRule, LogLevel, TaskError};

fn violation_message(step: LineStep) -> String {
    match step {
        LineStep::Violation(e) => {
            assert!(!e.retryable);
            e.message
        }
        other => panic!("expected a protocol violation, got {other:?}"),
    }
}

#[test]
fn oneshot_lines_become_events() {
    assert!(matches!(oneshot_line(""), LineStep::Skip));
    assert!(matches!(oneshot_line("   \t"), LineStep::Skip));
    match oneshot_line("{\"type\":\"log\",\"level\":\"warn\",\"message\":\"careful\"}") {
        LineStep::Event(PluginEvent::Log(LogLevel::Warn, m)) => assert_eq!(m, "careful"),
        other => panic!("unexpected {other:?}"),
    }
    match oneshot_line("{\"type\":\"log\",\"level\":\"ok\"}") {
        LineStep::Event(PluginEvent::Log(LogLevel::Success, m)) => assert_eq!(m, ""),
        other => panic!("unexpected {other:?}"),
    }
    match oneshot_line("{\"type\":\"result\",\"value\":{\"n\":3}}") {
        LineStep::Event(PluginEvent::Result(v)) => {
            assert_eq!(v, Json::Object(vec![("n".to_string(), Json::Number(Number::PosInt(3)))]))
        }
        other => panic!("unexpected {other:?}"),
    }
    match oneshot_line("{\"type\":\"result\"}") {
        LineStep::Event(PluginEvent::Result(v)) => assert_eq!(v, Json::Null),
        other => panic!("unexpected {other:?}"),
    }
    match oneshot_line("{\"type\":\"error\",\"message\":\"boom\",\"retryable\":true}") {
        LineStep::Event(PluginEvent::Error(e)) => {
            assert_eq!(e.message, "boom");
            assert!(e.retryable);
        }
        other => panic!("unexpected {other:?}"),
    }
    match oneshot_line("{\"type\":\"error\",\"message\":\"bad input\"}") {
        LineStep::Event(PluginEvent::Error(e)) => assert!(!e.retryable),
        other => panic!("unexpected {other:?}"),
    }
}

#[test]
fn execute_protocol_violation_is_fatal() {
    assert_eq!(
        violation_message(oneshot_line("this is not json")),
        "plugin protocol error: could not parse output line: not JSON"
    );
    for line in [
        "{\"type\":\"bogus\"}",
        "{\"type\":\"log\",\"level\":\"loud\",\"message\":\"x\"}",
        "{\"type\":\"log\",\"message\":\"no level\"}",
        "{\"type\":\"error\"}",
        "{\"type\":\"error\",\"message\":\"m\",\"retryable\":\"yes\"}",
        "[1,2]",
    ] {
        assert_eq!(
            violation_message(oneshot_line(line)),
            "plugin protocol error: could not parse output line: not a plugin event",
            "line {line}"
        );
    }
}

#[test]
fn persistent_lines_are_routed_by_id() {
    assert!(matches!(route_line("  "), Routed::Skip));
    assert!(matches!(route_line("  {\"type\":\"ready\"}  "), Routed::Ready));
    match route_line("{\"id\":7,\"type\":\"log\",\"level\":\"loud\",\"message\":\"m\"}") {
        Routed::Deliver(7, PluginEvent::Log(LogLevel::Info, m)) => assert_eq!(m, "m"),
        other => panic!("unexpected {other:?}"),
    }
    match route_line("{\"id\":2,\"type\":\"log\",\"level\":\"err\"}") {
        Routed::Deliver(2, PluginEvent::Log(LogLevel::Error, m)) => assert_eq!(m, ""),
        other => panic!("unexpected {other:?}"),
    }
    match route_line("{\"id\":3,\"type\":\"result\",\"value\":true}") {
        Routed::Deliver(3, PluginEvent::Result(v)) => assert_eq!(v, Json::Bool(true)),
        other => panic!("unexpected {other:?}"),
    }
    match route_line("{\"id\":4,\"type\":\"error\",\"message\":\"down\",\"retryable\":true}") {
        Routed::Deliver(4, PluginEvent::Error(e)) => {
            assert_eq!(e.message, "down");
            assert!(e.retryable);
        }
        other => panic!("unexpected {other:?}"),
    }
    for line in ["garbage", "{\"type\":\"result\",\"value\":1}", "{\"id\":-1,\"type\":\"result\"}", "{\"id\":1.5,\"type\":\"result\"}"] {
        assert!(matches!(route_line(line), Routed::Dead), "line {line}");
    }
}

#[test]
fn request_steps_follow_cancel_and_events() {
    let (c, a) = request_step(false, RequestInput::Cancel);
    assert!(c && matches!(a, RequestAction::SendCancel));
    let (c, a) = request_step(true, RequestInput::Cancel);
    assert!(c && matches!(a, RequestAction::Ignore));
    match request_step(true, RequestInput::GraceOver) {
        (true, RequestAction::Teardown(e)) => {
            assert_eq!(e.message, "canceled");
            assert!(!e.retryable);
        }
        other => panic!("unexpected {other:?}"),
    }
    assert!(matches!(request_step(false, RequestInput::GraceOver), (false, RequestAction::Ignore)));
    match request_step(false, RequestInput::Closed) {
        (false, RequestAction::Finish(Err(e))) => {
            assert_eq!(e.message, "plugin process ended");
            assert!(e.retryable);
        }
        other => panic!("unexpected {other:?}"),
    }
    match request_step(true, RequestInput::Event(PluginEvent::Result(Json::Null))) {
        (true, RequestAction::Finish(Ok(Json::Null))) => {}
        other => panic!("unexpected {other:?}"),
    }
    let err = TaskError { message: "x".to_string(), retryable: false };
    match request_step(false, RequestInput::Event(PluginEvent::Error(err))) {
        (false, RequestAction::Finish(Err(e))) => assert_eq!(e.message, "x"),
        other => panic!("unexpected {other:?}"),
    }
    match request_step(false, RequestInput::Event(PluginEvent::Log(LogLevel::Dbg, "d".to_string()))) {
        (false, RequestAction::Log(LogLevel::Dbg, m)) => assert_eq!(m, "d"),
        other => panic!("unexpected {other:?}"),
    }
    let e = start_failed("spawn failed: no such file");
    assert_eq!(e.message, "plugin start failed: spawn failed: no such file");
    assert!(e.retryable);
}

#[test]
fn bundles_need_a_known_schema_and_an_entrypoint() {
    assert_eq!(bundle_check(1, true), BundleCheck::Accept);
    assert_eq!(bundle_check(0, true), BundleCheck::Accept);
    assert_eq!(bundle_check(999, true), BundleCheck::UnsupportedVersion);
    assert_eq!(bundle_check(2, false), BundleCheck::UnsupportedVersion);
    assert_eq!(bundle_check(1, false), BundleCheck::MissingEntrypoint);
}

#[test]
fn validate_output_is_read_from_the_first_validation_line() {
    let out = b"noise\n\n{\"type\":\"log\"}\n{\"type\":\"validation\",\"errors\":[\"bad url\",\"no method\"]}\n{\"type\":\"validation\"}\n";
    assert_eq!(plugin_validation(out, Some(0), b""), Ok(vec!["bad url".to_string(), "no method".to_string()]));
    assert_eq!(plugin_validation(b"{\"type\":\"validation\"}", Some(0), b""), Ok(Vec::new()));
    assert_eq!(
        plugin_validation(b"{\"type\":\"validation\",\"errors\":[1]}", Some(1), b"  oops \n"),
        Err("no validation result (status Some(1)): oops".to_string())
    );
    assert_eq!(plugin_validation(b"", None, b""), Err("no validation result (status None)".to_string()));
    assert_eq!(plugin_validation(b"", Some(-9), b" "), Err("no validation result (status Some(-9))".to_string()));
}

#[test]
fn validate_reports_missing_required_field() {
    let fields = vec![FieldRule { key: "url".to_string(), required: true, default: Json::Null }];
    let problems = validation_problems(validate_against_manifest(&fields, &Json::Object(Vec::new())), None);
    assert!(problems.iter().any(|e| e.contains("url")));
    let ok = Json::Object(vec![("url".to_string(), Json::String("http://x".to_string()))]);
    assert!(validation_problems(validate_against_manifest(&fields, &ok), None).is_empty());
}

#[test]
fn plugin_problems_follow_the_manifest_ones() {
    let schema = vec!["url is required".to_string()];
    assert_eq!(
        validation_problems(schema.clone(), Some(Ok(vec!["token expired".to_string()]))),
        vec!["url is required".to_string(), "token expired".to_string()]
    );
    assert_eq!(validation_problems(schema.clone(), Some(Err("spawn failed".to_string()))), schema);
    assert_eq!(validation_problems(Vec::new(), None), Vec::<String>::new());
}

fn url_rule() -> Vec<FieldRule> {
    vec![FieldRule { key: "url".to_string(), required: true, default: Json::Null }]
}

fn config(pairs: &[(&str, &str)]) -> Json {
    Json::Object(pairs.iter().map(|(k, v)| (k.to_string(), Json::String(v.to_string()))).collect())
}

#[test]
fn validate_invokes_plugin_when_supported() {
    let said = plugin_validation(b"{\"type\": \"validation\", \"errors\": [\"name must not be bad\"]}\n", Some(0), b"");
    let errs = validation_problems(validate_against_manifest(&url_rule(), &config(&[("url", "x"), ("name", "bad")])), Some(said));
    assert!(errs.iter().any(|e| e == "name must not be bad"), "not surfaced: {errs:?}");
    let fine = plugin_validation(b"{\"type\": \"validation\", \"errors\": []}\n", Some(0), b"");
    assert!(validation_problems(validate_against_manifest(&url_rule(), &config(&[("url", "x"), ("name", "fine")])), Some(fine)).is_empty());
}

#[test]
fn validate_still_reports_schema_errors_alongside_plugin() {
    let said = plugin_validation(b"{\"type\": \"validation\", \"errors\": [\"name must not be bad\"]}\n", Some(0), b"");
    let errs = validation_problems(validate_against_manifest(&url_rule(), &config(&[("name", "bad")])), Some(said));
    assert!(errs.iter().any(|e| e.contains("url")), "missing schema error: {errs:?}");
    assert!(errs.iter().any(|e| e == "name must not be bad"), "missing plugin error: {errs:?}");
}

#[test]
fn validate_does_not_run_binary_when_not_supported() {
    assert!(validation_problems(validate_against_manifest(&url_rule(), &config(&[("url", "x")])), None).is_empty());
}

#[test]
fn validate_falls_back_to_schema_when_plugin_times_out() {
    let killed = plugin_validation(b"", None, b"");
    assert!(killed.is_err());
    let errs = validation_problems(validate_against_manifest(&url_rule(), &config(&[])), Some(killed));
    assert_eq!(errs, vec!["url is required".to_string()]);
}

#[test]
fn discovers_valid_bundle() {
    assert_eq!(bundle_check(1, true), BundleCheck::Accept);
}

#[test]
fn skips_bundle_with_missing_entrypoint() {
    assert_eq!(bundle_check(1, false), BundleCheck::MissingEntrypoint);
}

#[test]
fn skips_unsupported_schema_version() {
    assert_eq!(bundle_check(999, true), BundleCheck::UnsupportedVersion);
}
