use orchestrator::json::{Json, Number};
use orchestrator::model::schema::{field_to_schema, nullable, parallel_task_branch, plugin_config_schema, plugin_task_branch, FieldSpec};
use orchestrator::plugins::Widget;

/// Builds a value from JSON text.
fn j(text: &str) -> Json {
    let v: serde_json::Value = serde_json::from_str(text).expect("test JSON");
    conv(&v)
}

fn conv(v: &serde_json::Value) -> Json {
    match v {
        serde_json::Value::Null => Json::Null,
        serde_json::Value::Bool(b) => Json::Bool(*b),
        serde_json::Value::Number(n) => {
            if let Some(u) = n.as_u64() {
                Json::Number(Number::PosInt(u))
            } else if let Some(i) = n.as_i64() {
                Json::Number(Number::NegInt(i))
            } else {
                Json::Number(Number::Float(n.to_string()))
            }
        }
        serde_json::Value::String(s) => Json::String(s.clone()),
        serde_json::Value::Array(a) => Json::Array(a.iter().map(conv).collect()),
        serde_json::Value::Object(m) => Json::Object(m.iter().map(|(k, x)| (k.clone(), conv(x))).collect()),
    }
}

/// Minimal field for a widget.
fn field(key: &str, widget: Widget, required: bool, template: bool) -> FieldSpec {
    FieldSpec {
        key: key.to_string(),
        label: key.to_string(),
        widget,
        required,
        default: Json::Null,
        help: String::new(),
        options: None,
        min: None,
        max: None,
        template,
    }
}

/// `v[path[0]][path[1]]…`, `null` where a key is missing.
fn at(v: &Json, path: &[&str]) -> Json {
    let mut cur = v;
    for k in path {
        match cur.get_key(k) {
            Some(x) => cur = x,
            None => return Json::Null,
        }
    }
    cur.copy()
}

#[test]
fn toggle_maps_to_boolean() {
    let s = field_to_schema(&field("dry", Widget::Toggle, false, false));
    assert_eq!(at(&s, &["type"]), j("\"boolean\""));
}

#[test]
fn number_maps_to_number_with_bounds() {
    let mut f = field("n", Widget::Number, false, false);
    f.min = Some(Number::Float("1.0".to_string()));
    f.max = Some(Number::Float("10.0".to_string()));
    let s = field_to_schema(&f);
    assert_eq!(at(&s, &["type"]), j("\"number\""));
    assert_eq!(at(&s, &["minimum"]), j("1.0"));
    assert_eq!(at(&s, &["maximum"]), j("10.0"));
}

#[test]
fn template_numbers_stay_strings() {
    for w in [Widget::Number, Widget::Duration] {
        let mut f = field("n", w, false, true);
        f.min = Some(Number::PosInt(1));
        assert_eq!(field_to_schema(&f), j("{\"type\": \"string\"}"));
    }
}

#[test]
fn duration_maps_to_number() {
    let s = field_to_schema(&field("timeout", Widget::Duration, false, false));
    assert_eq!(s, j("{\"type\": \"number\"}"));
}

#[test]
fn select_maps_to_string_enum() {
    let mut f = field("method", Widget::Select, true, false);
    f.options = Some(vec!["GET".into(), "POST".into()]);
    let s = field_to_schema(&f);
    assert_eq!(at(&s, &["type"]), j("\"string\""));
    assert_eq!(at(&s, &["enum"]), j("[\"GET\", \"POST\"]"));
    let s = field_to_schema(&field("method", Widget::Select, true, false));
    assert_eq!(at(&s, &["enum"]), j("[]"));
}

#[test]
fn keyvalue_maps_to_array_of_pairs() {
    let s = field_to_schema(&field("headers", Widget::Keyvalue, false, true));
    assert_eq!(at(&s, &["type"]), j("\"array\""));
    assert_eq!(at(&s, &["items", "properties", "key", "type"]), j("\"string\""));
    assert_eq!(at(&s, &["items", "properties", "value", "type"]), j("\"string\""));
    assert_eq!(
        at(&s, &["items"]),
        j("{\"type\": \"object\", \"properties\": {\"key\": {\"type\": \"string\"}, \"value\": {\"type\": \"string\"}},
            \"required\": [\"key\", \"value\"], \"additionalProperties\": false}")
    );
}

#[test]
fn template_text_code_map_to_string() {
    for w in [Widget::Template, Widget::Text, Widget::Code] {
        let s = field_to_schema(&field("x", w, false, true));
        assert_eq!(at(&s, &["type"]), j("\"string\""));
    }
}

#[test]
fn help_becomes_description() {
    let mut f = field("url", Widget::Template, true, true);
    f.help = "Request URL".to_string();
    let s = field_to_schema(&f);
    assert_eq!(at(&s, &["description"]), j("\"Request URL\""));
}

#[test]
fn config_schema_collects_properties_and_required() {
    let s = plugin_config_schema(&vec![
        field("url", Widget::Template, true, true),
        field("dry", Widget::Toggle, false, false),
    ]);
    assert_eq!(at(&s, &["type"]), j("\"object\""));
    assert_eq!(at(&s, &["properties", "url", "type"]), j("\"string\""));
    match at(&s, &["properties", "dry", "anyOf"]) {
        Json::Array(branches) => {
            assert_eq!(branches, vec![j("{\"type\": \"boolean\"}"), j("{\"type\": \"null\"}")]);
        }
        other => panic!("unexpected {other:?}"),
    }
    assert_eq!(at(&s, &["required"]), j("[\"url\"]"));
    assert_eq!(at(&s, &["additionalProperties"]), j("true"));
}

#[test]
fn config_schema_omits_required_when_none() {
    let s = plugin_config_schema(&vec![field("opt", Widget::Text, false, false)]);
    assert!(s.get_key("required").is_none());
    let s = plugin_config_schema(&vec![]);
    assert_eq!(s, j("{\"type\": \"object\", \"properties\": {}, \"additionalProperties\": true}"));
}

#[test]
fn nullable_keeps_description_outside() {
    let s = nullable(&j("{\"type\": \"string\", \"description\": \"Request URL\"}"));
    assert_eq!(
        s,
        j("{\"anyOf\": [{\"type\": \"string\"}, {\"type\": \"null\"}], \"description\": \"Request URL\"}")
    );
    assert_eq!(nullable(&j("3")), j("{\"anyOf\": [{}, {\"type\": \"null\"}]}"));
}

#[test]
fn plugin_branch_carries_config_and_common_fields() {
    let retry = j("{\"$ref\": \"#/$defs/RetryPolicy\"}");
    let on_error = j("{\"$ref\": \"#/$defs/OnError\"}");
    let output = j("{\"$ref\": \"#/$defs/OutputDef\"}");
    let fields = vec![field("url", Widget::Template, true, true)];
    let http = plugin_task_branch("http.request", "Make an HTTP request", &fields, &retry, &on_error, &output);
    assert_eq!(at(&http, &["properties", "type", "const"]), j("\"http.request\""));
    assert_eq!(at(&http, &["properties", "config", "properties", "url", "type"]), j("\"string\""));
    assert!(matches!(at(&http, &["properties", "id"]), Json::Object(_)));
    assert_eq!(at(&http, &["properties", "outputs"]), j("{\"type\": \"array\", \"items\": {\"$ref\": \"#/$defs/OutputDef\"}}"));
    assert_eq!(at(&http, &["properties", "on_error"]), on_error);
    assert_eq!(at(&http, &["properties", "timeout_seconds"]), j("{\"type\": \"integer\", \"minimum\": 1, \"maximum\": 3600}"));
    assert_eq!(at(&http, &["required"]), j("[\"id\", \"type\"]"));
    assert_eq!(at(&http, &["additionalProperties"]), j("false"));
}

#[test]
fn parallel_branch_recurses_into_task() {
    let par = parallel_task_branch(&j("{\"$ref\": \"#/$defs/OutputDef\"}"));
    assert_eq!(at(&par, &["properties", "type", "const"]), j("\"parallel\""));
    assert_eq!(at(&par, &["properties", "tasks", "items", "$ref"]), j("\"#/$defs/Task\""));
    assert!(matches!(at(&par, &["properties", "items"]), Json::Object(_)));
    assert_eq!(at(&par, &["properties", "concurrency"]), j("{\"type\": \"integer\", \"minimum\": 1, \"maximum\": 256}"));
    assert_eq!(at(&par, &["required"]), j("[\"id\", \"type\", \"items\", \"concurrency\"]"));
}
