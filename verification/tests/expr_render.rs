use orchestrator::expr::redact::{redact, redact_stored, redact_str};
use orchestrator::expr::render::{render, render_at, render_config};
use orchestrator::expr::{parse, serialize};
use orchestrator::json::{Json, Number};

/// Builds a value from JSON text.
fn j(text: &str) -> Json {
    let v: serde_json::Value = serde_json::from_str(text).expect("test JSON");
    conv(&v)
}

fn conv(v: &serde_json::Value) -> Json {
    match v {
        serde_json::Value::Null => Json::Null,
        serde_json::Value::Bool(b) => Json::Bool(*b),
        serde_json::Value::Number(n) => {
            if let Some(u) = n.as_u64() {
                Json::Number(Number::PosInt(u))
            } else if let Some(i) = n.as_i64() {
                Json::Number(Number::NegInt(i))
            } else {
                Json::Number(Number::Float(n.to_string()))
            }
        }
        serde_json::Value::String(s) => Json::String(s.clone()),
        serde_json::Value::Array(a) => Json::Array(a.iter().map(conv).collect()),
        serde_json::Value::Object(m) => {
            Json::Object(m.iter().map(|(k, x)| (k.clone(), conv(x))).collect())
        }
    }
}

fn ctx() -> Json {
    j("{
        \"inputs\": { \"since\": \"2026-07-01T00:00:00Z\", \"count\": 3 },
        \"vars\": { \"server\": \"https://api.example.com\" },
        \"secrets\": { \"API_TOKEN\": \"tok-123\" },
        \"outputs\": {
            \"discover\": {
                \"ids\": [101, 102, 103],
                \"items\": [ { \"name\": \"first\" }, { \"name\": \"second\" } ]
            }
        },
        \"taskrun\": { \"value\": { \"id\": 42 } },
        \"grid\": [[10, 20], [30, 40]]
    }")
}

fn as_str(v: &Json) -> &str {
    match v {
        Json::String(s) => s.as_str(),
        other => panic!("not a string: {other:?}"),
    }
}

// ---- render ----

#[test]
fn render_text_only_passthrough() {
    let v = render("hello world", &ctx()).unwrap();
    assert_eq!(v, j("\"hello world\""));
}

#[test]
fn render_single_ref_preserves_type() {
    assert_eq!(render("{{ outputs.discover.ids }}", &ctx()).unwrap(), j("[101, 102, 103]"));
    assert_eq!(render("{{ inputs.count }}", &ctx()).unwrap(), j("3"));
    assert_eq!(render("{{ taskrun.value.id }}", &ctx()).unwrap(), j("42"));
}

#[test]
fn render_mixed_stringifies_compactly() {
    assert_eq!(
        render("ids={{ outputs.discover.ids }}!", &ctx()).unwrap(),
        j("\"ids=[101,102,103]!\"")
    );
    assert_eq!(
        render("{{ vars.server }}/api/x", &ctx()).unwrap(),
        j("\"https://api.example.com/api/x\"")
    );
    assert_eq!(render("n={{ inputs.count }}", &ctx()).unwrap(), j("\"n=3\""));
}

#[test]
fn render_two_refs_stringifies() {
    assert_eq!(render("{{ inputs.count }}{{ inputs.count }}", &ctx()).unwrap(), j("\"33\""));
}

#[test]
fn render_filter_inside_mixed_template() {
    assert_eq!(
        render("since={{ inputs.since | dateAdd(-7, 'DAYS') }}&limit=5", &ctx()).unwrap(),
        j("\"since=2026-06-24T00:00:00Z&limit=5\"")
    );
}

#[test]
fn render_chained_indexing() {
    assert_eq!(render("{{ grid[0][1] }}", &ctx()).unwrap(), j("20"));
    assert_eq!(render("{{ grid[1][0] }}", &ctx()).unwrap(), j("30"));
    assert_eq!(serialize(&parse("{{grid[0][1]}}").unwrap()), "{{ grid[0][1] }}");
}

#[test]
fn render_nested_path_and_index() {
    assert_eq!(render("{{ outputs.discover.items[0].name }}", &ctx()).unwrap(), j("\"first\""));
    assert_eq!(render("{{ outputs.discover.ids[2] }}", &ctx()).unwrap(), j("103"));
}

#[test]
fn render_now_shape() {
    let v = render("{{ now() }}", &ctx()).unwrap();
    let s = as_str(&v);
    assert!(s.starts_with("20"), "got {s}");
    assert!(chrono::DateTime::parse_from_rfc3339(s).is_ok(), "not RFC3339: {s}");
    assert!(s.ends_with('Z'), "not UTC Z form: {s}");
}

#[test]
fn render_date_add_all_units_and_negative() {
    let c = ctx();
    assert_eq!(
        render("{{ inputs.since | dateAdd(-7, 'DAYS') }}", &c).unwrap(),
        j("\"2026-06-24T00:00:00Z\"")
    );
    assert_eq!(
        render("{{ inputs.since | dateAdd(5, 'HOURS') }}", &c).unwrap(),
        j("\"2026-07-01T05:00:00Z\"")
    );
    assert_eq!(
        render("{{ inputs.since | dateAdd(90, 'MINUTES') }}", &c).unwrap(),
        j("\"2026-07-01T01:30:00Z\"")
    );
    assert_eq!(
        render("{{ inputs.since | dateAdd(1, 'DAYS') | dateAdd(-30, 'MINUTES') }}", &c).unwrap(),
        j("\"2026-07-01T23:30:00Z\"")
    );
}

#[test]
fn render_date_add_normalizes_to_utc() {
    let c = j("{ \"inputs\": { \"t\": \"2026-07-01T02:00:00+02:00\" } }");
    assert_eq!(
        render("{{ inputs.t | dateAdd(0, 'HOURS') }}", &c).unwrap(),
        j("\"2026-07-01T00:00:00Z\"")
    );
}

#[test]
fn render_now_with_date_add() {
    let v = render("{{ now() | dateAdd(-1, 'DAYS') }}", &ctx()).unwrap();
    let s = as_str(&v);
    let parsed = chrono::DateTime::parse_from_rfc3339(s).unwrap();
    let delta = chrono::Utc::now() - parsed.with_timezone(&chrono::Utc);
    assert!(delta > chrono::Duration::hours(23) && delta < chrono::Duration::hours(25));
}

#[test]
fn render_unknown_ref_error_names_full_path() {
    let err = render("{{ outputs.missing.ids }}", &ctx()).unwrap_err();
    assert!(err.message.contains("unknown reference: outputs.missing.ids"), "message: {}", err.message);

    let err = render("{{ outputs.discover.ids[9] }}", &ctx()).unwrap_err();
    assert!(err.message.contains("unknown reference: outputs.discover.ids[9]"), "message: {}", err.message);
}

#[test]
fn render_date_add_on_non_datetime_errors() {
    assert!(render("{{ inputs.count | dateAdd(1, 'DAYS') }}", &ctx()).is_err());
    let c = j("{ \"inputs\": { \"s\": \"not a date\" } }");
    assert!(render("{{ inputs.s | dateAdd(1, 'DAYS') }}", &c).is_err());
}

#[test]
fn render_date_add_huge_offset_errors_not_panics() {
    let err = render("{{ inputs.since | dateAdd(9223372036854775807, 'DAYS') }}", &ctx()).unwrap_err();
    assert!(err.message.contains("out of range"), "message: {}", err.message);
}

// ---- render_config ----

#[test]
fn render_config_deep_walk() {
    let config = j("{
        \"url\": \"{{ vars.server }}/api/x\",
        \"ids\": \"{{ outputs.discover.ids }}\",
        \"nested\": {
            \"list\": [\"{{ inputs.count }}\", \"plain\", { \"k\": \"{{ taskrun.value.id }}\" }]
        },
        \"number\": 7,
        \"flag\": true
    }");
    let rendered = render_config(&config, &ctx()).unwrap();
    assert_eq!(
        rendered,
        j("{
            \"url\": \"https://api.example.com/api/x\",
            \"ids\": [101, 102, 103],
            \"nested\": { \"list\": [3, \"plain\", { \"k\": 42 }] },
            \"number\": 7,
            \"flag\": true
        }")
    );
}

#[test]
fn render_config_preserves_null_leaf() {
    let config = j("{ \"a\": null, \"b\": \"{{ inputs.count }}\", \"c\": [null] }");
    assert_eq!(render_config(&config, &ctx()).unwrap(), j("{ \"a\": null, \"b\": 3, \"c\": [null] }"));
}

#[test]
fn render_config_fails_with_a_leaf_error() {
    let leaf = render("{{ inputs.missing }}", &ctx()).unwrap_err();
    let config = j("{ \"a\": \"plain\", \"b\": [1, { \"c\": \"{{ inputs.missing }}\" }] }");
    let err = render_config(&config, &ctx()).unwrap_err();
    assert_eq!(err.to_string(), leaf.to_string());
}

#[test]
fn render_at_fixed_now() {
    let v = render_at("{{ now() | dateAdd(1, 'HOURS') }}", &ctx(), "2026-01-01T00:00:00Z").unwrap();
    assert_eq!(v, j("\"2026-01-01T01:00:00Z\""));
}

#[test]
fn render_parse_error_reports_offset() {
    let err = render("ab {{ inputs.", &ctx()).unwrap_err();
    assert!(err.offset.is_some());
}

// ---- redact ----

#[test]
fn redact_multi_occurrence_and_substring() {
    let mut v = j("{
        \"log\": \"token tok-123 used; again tok-123\",
        \"url\": \"https://x?auth=tok-123&other=1\",
        \"list\": [\"tok-123\", { \"deep\": \"prefix tok-123 suffix\" }],
        \"n\": 5
    }");
    redact(&mut v, &["tok-123".to_string()]);
    assert_eq!(
        v,
        j("{
            \"log\": \"token *** used; again ***\",
            \"url\": \"https://x?auth=***&other=1\",
            \"list\": [\"***\", { \"deep\": \"prefix *** suffix\" }],
            \"n\": 5
        }")
    );
}

#[test]
fn redact_multiple_secrets_and_empty_ignored() {
    let mut v = j("\"a=alpha b=beta\"");
    redact(&mut v, &["alpha".to_string(), "beta".to_string(), String::new()]);
    assert_eq!(v, j("\"a=*** b=***\""));
}

#[test]
fn redact_overlapping_secrets_order_independent() {
    let mut v = j("\"xaby\"");
    redact(&mut v, &["b".to_string(), "ab".to_string()]);
    assert_eq!(v, j("\"x***y\""), "shorter secret listed first");

    let mut v = j("\"xaby\"");
    redact(&mut v, &["ab".to_string(), "b".to_string()]);
    assert_eq!(v, j("\"x***y\""), "longer secret listed first");
}

#[test]
fn redact_secret_containing_another_secret() {
    let mut v = j("\"auth=tok-abc-999; short=abc\"");
    redact(&mut v, &["abc".to_string(), "tok-abc-999".to_string()]);
    assert_eq!(v, j("\"auth=***; short=***\""));

    let mut v = j("\"auth=tok-abc-999; short=abc\"");
    redact(&mut v, &["tok-abc-999".to_string(), "abc".to_string()]);
    assert_eq!(v, j("\"auth=***; short=***\""));
}

#[test]
fn redact_without_secrets_changes_nothing() {
    let mut v = ctx();
    redact(&mut v, &[]);
    assert_eq!(v, ctx());
}

#[test]
fn redact_keeps_object_keys() {
    let mut v = j("{\"a\": \"tok-1\", \"tok-1\": \"x\", \"k\": {\"id-tok-1\": [\"tok-1\"]}}");
    redact(&mut v, &["tok-1".to_string()]);
    assert_eq!(v, j("{\"a\": \"***\", \"tok-1\": \"x\", \"k\": {\"id-tok-1\": [\"***\"]}}"));
    let mut v = j("{\"s\": null}");
    redact(&mut v, &["s".to_string()]);
    assert_eq!(v, j("{\"s\": null}"));
}

#[test]
fn redact_stored_masks_object_keys_in_place() {
    let mut v = j("{\"a\": \"tok-1\", \"tok-1\": \"x\", \"k\": {\"id-tok-1\": [\"tok-1\"]}}");
    redact_stored(&mut v, &["tok-1".to_string()]);
    match v {
        Json::Object(members) => {
            let keys: Vec<&str> = members.iter().map(|m| m.0.as_str()).collect();
            assert_eq!(keys, vec!["a", "k", "***"]);
            assert_eq!(members[0].1, Json::String("***".to_string()));
            assert_eq!(members[1].1, Json::Object(vec![("id-***".to_string(), j("[\"***\"]"))]));
            assert_eq!(members[2].1, Json::String("x".to_string()));
        }
        other => panic!("unexpected {other:?}"),
    }
}

#[test]
fn redact_str_masks_longest_first() {
    let secrets = vec!["abc".to_string(), "tok-abc-999".to_string(), String::new()];
    assert_eq!(redact_str("auth=tok-abc-999; short=abc", &secrets), "auth=***; short=***");
    assert_eq!(redact_str("nothing here", &secrets), "nothing here");
}
