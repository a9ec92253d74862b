use orchestrator::json::{Json, Number};
use orchestrator::plugins::http::{
    parse_success_codes, request_plan, response_outcome, validate, CodeSpec, RequestBody,
};
use orchestrator::plugins::LogLevel;

/// Builds a value from JSON text.
fn j(text: &str) -> Json {
    let v: serde_json::Value = serde_json::from_str(text).expect("test JSON");
    conv(&v)
}

fn conv(v: &serde_json::Value) -> Json {
    match v {
        serde_json::Value::Null => Json::Null,
        serde_json::Value::Bool(b) => Json::Bool(*b),
        serde_json::Value::Number(n) => {
            if let Some(u) = n.as_u64() {
                Json::Number(Number::PosInt(u))
            } else if let Some(i) = n.as_i64() {
                Json::Number(Number::NegInt(i))
            } else {
                Json::Number(Number::Float(n.to_string()))
            }
        }
        serde_json::Value::String(s) => Json::String(s.clone()),
        serde_json::Value::Array(a) => Json::Array(a.iter().map(conv).collect()),
        serde_json::Value::Object(m) => {
            Json::Object(m.iter().map(|(k, x)| (k.clone(), conv(x))).collect())
        }
    }
}

#[test]
fn validate_catches_bad_configs() {
    assert!(validate(&j("{}")).iter().any(|e| e == "url is required"));
    assert!(validate(&j("{\"url\": \"\"}")).iter().any(|e| e == "url is required"));
    assert!(validate(&j("{\"url\": \"http://x\", \"method\": \"BREW\"}")).iter().any(|e| e.contains("method")));
    assert!(validate(&j("{\"url\": \"http://x\", \"success_codes\": \"2xx,nope\"}"))
        .iter()
        .any(|e| e.contains("success_codes")));
    assert!(validate(&j("{\"url\": \"http://x\", \"headers\": [{\"key\": \"\", \"value\": \"v\"}]}"))
        .iter()
        .any(|e| e.contains("headers")));
    assert!(validate(&j("{\"url\": \"http://x\", \"body\": \"not-an-array\"}")).iter().any(|e| e.contains("body")));
    assert_eq!(validate(&j("\"not an object\"")), vec!["config must be an object".to_string()]);
}

#[test]
fn validate_accepts_good_config() {
    let errs = validate(&j("{
        \"method\": \"POST\",
        \"url\": \"{{ vars.server }}/api\",
        \"headers\": [{\"key\": \"Authorization\", \"value\": \"Bearer {{ secrets.T }}\"}],
        \"body\": [{\"key\": \"since\", \"value\": \"{{ inputs.since }}\"}],
        \"success_codes\": \"2xx,301\"
    }"));
    assert!(errs.is_empty(), "unexpected errors: {errs:?}");
}

#[test]
fn success_codes_grammar() {
    assert_eq!(parse_success_codes("2xx").unwrap(), vec![CodeSpec::Class(2)]);
    assert_eq!(parse_success_codes(" 2xx , 301 ").unwrap(), vec![CodeSpec::Class(2), CodeSpec::Exact(301)]);
    assert_eq!(parse_success_codes("").unwrap(), vec![CodeSpec::Class(2)]);
    assert!(parse_success_codes("6xx").is_err());
    assert!(parse_success_codes("banana").is_err());
}

#[test]
fn success_codes_error_names_the_entry() {
    assert_eq!(
        parse_success_codes("2XX, 99").unwrap_err(),
        "success_codes: invalid entry \"99\" (expected a status code like 404 or a class like 2xx)"
    );
    assert_eq!(parse_success_codes("4XX").unwrap(), vec![CodeSpec::Class(4)]);
}

#[test]
fn code_spec_matching() {
    assert!(CodeSpec::Class(2).matches(204));
    assert!(!CodeSpec::Class(2).matches(301));
    assert!(CodeSpec::Exact(404).matches(404));
    assert!(!CodeSpec::Exact(404).matches(405));
}

#[test]
fn validate_reports_duplicate_body_keys_sorted() {
    let errs = validate(&j("{\"url\": \"http://x\", \"body\": [
        {\"key\": \"z\", \"value\": 1}, {\"key\": \"a\", \"value\": 2},
        {\"key\": \"z\", \"value\": 3}, {\"key\": \"a\", \"value\": 4}, {\"key\": \"z\", \"value\": 5}
    ]}"));
    assert_eq!(
        errs,
        vec![
            "body: duplicate key \"a\" (last value wins)".to_string(),
            "body: duplicate key \"z\" (last value wins)".to_string(),
        ]
    );
}

#[test]
fn validate_flags_bad_header_names_but_not_templates() {
    let errs = validate(&j("{\"url\": \"http://x\", \"headers\": [
        {\"key\": \"bad name\", \"value\": \"v\"}, {\"key\": \"{{ vars.h }}\", \"value\": \"v\"}
    ]}"));
    assert_eq!(errs, vec!["headers: \"bad name\" is not a valid header name".to_string()]);
}

#[test]
fn plan_defaults_to_get_and_2xx() {
    let plan = request_plan(&j("{\"url\": \"http://x/a\"}"), false).unwrap();
    assert_eq!(plan.method, "GET");
    assert_eq!(plan.url, "http://x/a");
    assert_eq!(plan.success_codes, vec![CodeSpec::Class(2)]);
    assert!(plan.headers.is_empty());
    assert!(matches!(plan.body, RequestBody::Empty));
}

#[test]
fn plan_uppercases_method_and_rejects_unknown() {
    let plan = request_plan(&j("{\"url\": \"http://x\", \"method\": \"post\"}"), false).unwrap();
    assert_eq!(plan.method, "POST");
    let err = request_plan(&j("{\"url\": \"http://x\", \"method\": \"brew\"}"), false).unwrap_err();
    assert_eq!(err.message, "method must be one of GET, POST, PUT, PATCH, DELETE (got \"BREW\")");
    assert!(!err.retryable);
    let err = request_plan(&j("{\"url\": \"http://x\", \"method\": 3}"), false).unwrap_err();
    assert_eq!(err.message, "method must be a string");
}

#[test]
fn plan_raw_body_content_types() {
    let plan = request_plan(&j("{\"url\": \"http://x\", \"raw_body\": \"{\\\"a\\\": 1}\"}"), false).unwrap();
    match plan.body {
        RequestBody::Text { text, content_type } => {
            assert_eq!(text, "{\"a\": 1}");
            assert_eq!(content_type.as_deref(), Some("application/json"));
        }
        other => panic!("unexpected body {other:?}"),
    }
    let plan = request_plan(&j("{\"url\": \"http://x\", \"raw_body\": \"hello\"}"), false).unwrap();
    match plan.body {
        RequestBody::Text { content_type, .. } => assert_eq!(content_type.as_deref(), Some("text/plain")),
        other => panic!("unexpected body {other:?}"),
    }
    let plan = request_plan(&j("{\"url\": \"http://x\", \"raw_body\": \"hello\",
        \"headers\": [{\"key\": \"Content-Type\", \"value\": \"text/csv\"}]}"), false)
    .unwrap();
    match plan.body {
        RequestBody::Text { content_type, .. } => assert_eq!(content_type, None),
        other => panic!("unexpected body {other:?}"),
    }
    assert_eq!(plan.headers, vec![("Content-Type".to_string(), "text/csv".to_string())]);
}

#[test]
fn plan_body_params_last_value_wins() {
    let plan = request_plan(&j("{\"url\": \"http://x\", \"body\": [
        {\"key\": \"b\", \"value\": 1}, {\"key\": \"a\", \"value\": 2}, {\"key\": \"b\", \"value\": 3}
    ]}"), false)
    .unwrap();
    match plan.body {
        RequestBody::Params(m) => assert_eq!(Json::Object(m), j("{\"a\": 2, \"b\": 3}")),
        other => panic!("unexpected body {other:?}"),
    }
}

#[test]
fn cancelled_token_short_circuits_before_any_request() {
    let err = request_plan(&j("{\"url\": \"http://127.0.0.1:1/\"}"), true).unwrap_err();
    assert_eq!(err.message, "canceled");
    assert!(!err.retryable);
}

#[test]
fn cancel_comes_after_config_errors_and_before_header_errors() {
    let err = request_plan(&j("{\"url\": \"http://x\", \"method\": \"brew\"}"), true).unwrap_err();
    assert!(err.message.starts_with("method must be one of"));
    let err = request_plan(&j("{\"url\": \"http://x\", \"headers\": [{\"key\": \"X-A\", \"value\": \"a\\nb\"}]}"), true).unwrap_err();
    assert_eq!(err.message, "canceled");
}

#[test]
fn plan_checks_header_names_by_token_bytes() {
    let plan = request_plan(&j("{\"url\": \"http://x\", \"headers\": [{\"key\": \"X-Trace_id.1~\", \"value\": \"v\"}]}"), false).unwrap();
    assert_eq!(plan.headers, vec![("X-Trace_id.1~".to_string(), "v".to_string())]);
    for bad in ["X A", "X:A", "Ä", "(x)"] {
        let config = format!("{{\"url\": \"http://x\", \"headers\": [{{\"key\": \"{bad}\", \"value\": \"v\"}}]}}");
        let err = request_plan(&j(&config), false).unwrap_err();
        assert_eq!(err.message, format!("invalid header name \"{bad}\": invalid HTTP header name"));
        assert!(!err.retryable);
    }
}

#[test]
fn plan_rejects_bad_header_value() {
    let err = request_plan(&j("{\"url\": \"http://x\", \"headers\": [{\"key\": \"X-A\", \"value\": \"a\\nb\"}]}"), false).unwrap_err();
    assert_eq!(err.message, "invalid value for header \"X-A\": failed to parse header value");
}

#[test]
fn response_success_builds_result() {
    let (r, level) = response_outcome(
        200,
        &vec![("content-type".to_string(), "application/json".to_string())],
        &b"{\"ok\": true}".to_vec(),
        &vec![CodeSpec::Class(2)],
    );
    assert_eq!(level, LogLevel::Success);
    assert_eq!(
        r.unwrap(),
        j("{\"status\": 200, \"headers\": {\"content-type\": \"application/json\"}, \"body\": {\"ok\": true}}")
    );
}

#[test]
fn response_non_json_body_is_a_string() {
    let (r, _) = response_outcome(200, &vec![], &b"plain words".to_vec(), &vec![CodeSpec::Class(2)]);
    assert_eq!(r.unwrap(), j("{\"status\": 200, \"headers\": {}, \"body\": \"plain words\"}"));
}

#[test]
fn response_500_is_retryable_with_body_snippet() {
    let body = "x".repeat(300);
    let (r, level) = response_outcome(503, &vec![], &body.clone().into_bytes(), &vec![CodeSpec::Class(2)]);
    let err = r.unwrap_err();
    assert!(err.retryable);
    assert_eq!(level, LogLevel::Warn);
    assert_eq!(err.message, format!("unexpected status 503: {}", "x".repeat(200)));
}

#[test]
fn response_404_is_not_retryable_unless_listed() {
    let (r, level) = response_outcome(404, &vec![], &b"nope".to_vec(), &vec![CodeSpec::Class(2)]);
    let err = r.unwrap_err();
    assert!(!err.retryable);
    assert_eq!(level, LogLevel::Error);
    assert_eq!(err.message, "unexpected status 404: nope");
    let (r, _) = response_outcome(404, &vec![], &b"nope".to_vec(), &vec![CodeSpec::Exact(404)]);
    assert!(r.is_ok());
}
