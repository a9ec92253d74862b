//! The JSON Schema of a plugin's `config`, derived from the fields of its
//! manifest, for editor autocomplete.
//!
//! Template fields stay `string` even where they hold numbers: a `{{ … }}`
//! expression is a string until the engine renders it. Optional fields may
//! be an explicit `null`, and unknown keys are allowed, so a manifest that
//! under-describes a config never flags a valid one.

use vstd::prelude::*;
use crate::json::{
    get_key, items_view, json_view, lemma_items_view, lemma_members_view, members_view, number_view, set_key, Json,
    JsonView, Number, NumberView,
};
use crate::plugins::Widget;
use crate::text::str_eq;

verus! {

/// One config field of a plugin manifest. A numeric bound is the JSON
/// number it is written as.
#[derive(Debug)]
pub struct FieldSpec {
    pub key: String,
    pub label: String,
    pub widget: Widget,
    pub required: bool,
    /// The default value, `null` when there is none.
    pub default: Json,
    pub help: String,
    /// The choices of a select.
    pub options: Option<Vec<String>>,
    pub min: Option<Number>,
    pub max: Option<Number>,
    /// Whether the field accepts `{{ … }}` expressions.
    pub template: bool,
}

/// A string value.
pub open spec fn text(s: Seq<char>) -> JsonView {
    JsonView::String(s)
}

/// An object with one member.
pub open spec fn single(key: Seq<char>, value: JsonView) -> JsonView {
    JsonView::Object(seq![(key, value)])
}

/// `{"type": t}`.
pub open spec fn typed(t: Seq<char>) -> JsonView {
    single("type"@, text(t))
}

/// `v` with `key` set to the bound, when there is one.
pub open spec fn with_bound(v: JsonView, key: Seq<char>, bound: Option<NumberView>) -> JsonView {
    match bound {
        Some(n) => set_key(v, key, JsonView::Number(n)),
        None => v,
    }
}

pub open spec fn bound_view(b: Option<Number>) -> Option<NumberView> {
    match b {
        Some(n) => Some(number_view(n)),
        None => None,
    }
}

/// The choices of a select, as strings; none when it lists none.
pub open spec fn option_values(options: Option<Vec<String>>) -> Seq<JsonView> {
    match options {
        Some(v) => v@.map_values(|s: String| text(s@)),
        None => seq![],
    }
}

/// The items of a keyvalue field: `{key, value}` objects of two strings,
/// nothing else.
pub open spec fn pair_schema() -> JsonView {
    let props = set_key(single("key"@, typed("string"@)), "value"@, typed("string"@));
    let with_props = set_key(typed("object"@), "properties"@, props);
    let with_required = set_key(with_props, "required"@, JsonView::Array(seq![text("key"@), text("value"@)]));
    set_key(with_required, "additionalProperties"@, JsonView::Bool(false))
}

/// The schema a widget gives its field's value. A field that takes
/// templates stays a string even under a numeric widget.
pub open spec fn widget_schema(f: FieldSpec) -> JsonView {
    match f.widget {
        Widget::Toggle => typed("boolean"@),
        Widget::Number | Widget::Duration => if f.template {
            typed("string"@)
        } else {
            with_bound(
                with_bound(typed("number"@), "minimum"@, bound_view(f.min)),
                "maximum"@,
                bound_view(f.max),
            )
        },
        Widget::Select => set_key(typed("string"@), "enum"@, JsonView::Array(option_values(f.options))),
        Widget::Keyvalue => set_key(typed("array"@), "items"@, pair_schema()),
        _ => typed("string"@),
    }
}

/// The schema of one field: its widget's, described by its help text when
/// it has one.
pub open spec fn field_schema(f: FieldSpec) -> JsonView {
    if f.help@.len() > 0 {
        set_key(widget_schema(f), "description"@, text(f.help@))
    } else {
        widget_schema(f)
    }
}

fn string_json(s: &str) -> (r: Json)
    ensures
        json_view(r) == text(s@),
{
    Json::String(s.to_owned())
}

fn single_json(key: &str, value: Json) -> (r: Json)
    ensures
        json_view(r) == single(key@, json_view(value)),
{
    let mut r = Json::Null;
    r.set_key(key.to_owned(), value);
    r
}

fn typed_json(t: &str) -> (r: Json)
    ensures
        json_view(r) == typed(t@),
{
    single_json("type", string_json(t))
}

fn pair_schema_json() -> (r: Json)
    ensures
        json_view(r) == pair_schema(),
{
    let mut props = single_json("key", typed_json("string"));
    props.set_key("value".to_owned(), typed_json("string"));
    let mut s = typed_json("object");
    s.set_key("properties".to_owned(), props);
    let mut required: Vec<Json> = Vec::new();
    required.push(string_json("key"));
    required.push(string_json("value"));
    proof {
        lemma_items_view(required@);
        assert(items_view(required@) =~= seq![text("key"@), text("value"@)]);
    }
    s.set_key("required".to_owned(), Json::Array(required));
    s.set_key("additionalProperties".to_owned(), Json::Bool(false));
    s
}

fn options_json(options: &Option<Vec<String>>) -> (r: Vec<Json>)
    ensures
        items_view(r@) == option_values(*options),
{
    let mut out: Vec<Json> = Vec::new();
    match options {
        Some(v) => {
            let ghost want = option_values(*options);
            let mut i: usize = 0;
            while i < v.len()
                invariant
                    i <= v@.len(),
                    want == v@.map_values(|s: String| text(s@)),
                    items_view(out@) == want.take(i as int),
                decreases v@.len() - i,
            {
                let ghost before = out@;
                out.push(string_json(v[i].as_str()));
                proof {
                    lemma_items_view(before);
                    lemma_items_view(out@);
                    assert(out@.drop_last() =~= before);
                    assert(want.take(i + 1) =~= want.take(i as int).push(text(v@[i as int]@)));
                }
                i = i + 1;
            }
            proof {
                assert(want.take(i as int) =~= want);
            }
        },
        None => {
            proof {
                lemma_items_view(out@);
                assert(items_view(out@) =~= Seq::<JsonView>::empty());
            }
        },
    }
    out
}

/// The JSON Schema of one config field's value.
pub fn field_to_schema(field: &FieldSpec) -> (r: Json)
    ensures
        json_view(r) == field_schema(*field),
{
    let mut s = match field.widget {
        Widget::Toggle => typed_json("boolean"),
        Widget::Number | Widget::Duration => if field.template {
            typed_json("string")
        } else {
            let mut m = typed_json("number");
            if let Some(min) = &field.min {
                m.set_key("minimum".to_owned(), Json::Number(min.copy()));
            }
            if let Some(max) = &field.max {
                m.set_key("maximum".to_owned(), Json::Number(max.copy()));
            }
            m
        },
        Widget::Select => {
            let mut m = typed_json("string");
            m.set_key("enum".to_owned(), Json::Array(options_json(&field.options)));
            m
        },
        Widget::Keyvalue => {
            let mut m = typed_json("array");
            m.set_key("items".to_owned(), pair_schema_json());
            m
        },
        _ => typed_json("string"),
    };
    if !field.help.as_str().is_empty() {
        s.set_key("description".to_owned(), string_json(field.help.as_str()));
    }
    s
}

/// The members of an object other than those under `key`.
pub open spec fn without_key(m: Seq<(Seq<char>, JsonView)>, key: Seq<char>) -> Seq<(Seq<char>, JsonView)>
    decreases m.len(),
{
    if m.len() == 0 {
        seq![]
    } else if m.last().0 == key {
        without_key(m.drop_last(), key)
    } else {
        without_key(m.drop_last(), key).push(m.last())
    }
}

/// A schema that also admits an explicit `null`: `{"anyOf": [schema,
/// {"type": "null"}]}`, the schema's description moved to the outside so
/// hover help survives. Anything but an object counts as `{}`.
pub open spec fn nullable_schema(schema: JsonView) -> JsonView {
    let inner = match schema {
        JsonView::Object(m) => without_key(m, "description"@),
        _ => seq![],
    };
    let wrapped = single("anyOf"@, JsonView::Array(seq![JsonView::Object(inner), typed("null"@)]));
    match get_key(schema, "description"@) {
        Some(d) => set_key(wrapped, "description"@, d),
        None => wrapped,
    }
}

/// Wraps a property schema so that an explicit `null` validates too.
pub fn nullable(schema: &Json) -> (r: Json)
    ensures
        json_view(r) == nullable_schema(json_view(*schema)),
{
    let mut inner: Vec<(String, Json)> = Vec::new();
    if let Json::Object(members) = schema {
        let ghost mv = members_view(members@);
        proof {
            lemma_members_view(members@);
            lemma_members_view(inner@);
            assert(mv.take(0) =~= Seq::<(Seq<char>, JsonView)>::empty());
        }
        let mut i: usize = 0;
        while i < members.len()
            invariant
                i <= members@.len(),
                mv == members_view(members@),
                mv.len() == members@.len(),
                forall|k: int| 0 <= k < members@.len() ==> #[trigger] mv[k] == (members@[k].0@, json_view(members@[k].1)),
                members_view(inner@) == without_key(mv.take(i as int), "description"@),
            decreases members@.len() - i,
        {
            proof {
                assert(mv.take(i + 1).drop_last() =~= mv.take(i as int));
                assert(mv.take(i + 1).last() == mv[i as int]);
            }
            if !str_eq(members[i].0.as_str(), "description") {
                let ghost before = inner@;
                inner.push((members[i].0.clone(), members[i].1.copy()));
                proof {
                    lemma_members_view(before);
                    lemma_members_view(inner@);
                    assert(inner@.drop_last() =~= before);
                    assert(members_view(inner@) =~= members_view(before).push(mv[i as int]));
                }
            }
            i = i + 1;
        }
        proof {
            assert(mv.take(i as int) =~= mv);
        }
    } else {
        proof {
            lemma_members_view(inner@);
            assert(members_view(inner@) =~= Seq::<(Seq<char>, JsonView)>::empty());
        }
    }
    let mut branches: Vec<Json> = Vec::new();
    branches.push(Json::Object(inner));
    branches.push(typed_json("null"));
    proof {
        lemma_items_view(branches@);
        let inner_v = match json_view(*schema) {
            JsonView::Object(m) => without_key(m, "description"@),
            _ => seq![],
        };
        assert(json_view(branches@[0]) == JsonView::Object(inner_v));
        assert(items_view(branches@) =~= seq![JsonView::Object(inner_v), typed("null"@)]);
    }
    let mut wrapped = single_json("anyOf", Json::Array(branches));
    if let Some(d) = schema.get_key("description") {
        wrapped.set_key("description".to_owned(), d.copy());
    }
    wrapped
}

/// What a field becomes among a config schema's properties: its schema,
/// admitting `null` when the field is optional.
pub open spec fn field_property(f: FieldSpec) -> JsonView {
    if f.required {
        field_schema(f)
    } else {
        nullable_schema(field_schema(f))
    }
}

/// The properties of a config schema: each field under its key, a later
/// field replacing an earlier one with the same key.
pub open spec fn config_properties(fields: Seq<FieldSpec>) -> JsonView
    decreases fields.len(),
{
    if fields.len() == 0 {
        JsonView::Object(seq![])
    } else {
        set_key(config_properties(fields.drop_last()), fields.last().key@, field_property(fields.last()))
    }
}

/// The keys of the required fields, in order.
pub open spec fn required_keys(fields: Seq<FieldSpec>) -> Seq<JsonView>
    decreases fields.len(),
{
    if fields.len() == 0 {
        seq![]
    } else if fields.last().required {
        required_keys(fields.drop_last()).push(text(fields.last().key@))
    } else {
        required_keys(fields.drop_last())
    }
}

/// The schema of a plugin's config: an object with the fields'
/// properties, unknown keys allowed, and the required keys listed when
/// there are any.
pub open spec fn config_schema(fields: Seq<FieldSpec>) -> JsonView {
    let base = set_key(
        set_key(typed("object"@), "properties"@, config_properties(fields)),
        "additionalProperties"@,
        JsonView::Bool(true),
    );
    if required_keys(fields).len() > 0 {
        set_key(base, "required"@, JsonView::Array(required_keys(fields)))
    } else {
        base
    }
}

/// Builds the `config` object schema of a plugin from its manifest fields.
pub fn plugin_config_schema(fields: &Vec<FieldSpec>) -> (r: Json)
    ensures
        json_view(r) == config_schema(fields@),
{
    let mut properties = Json::Object(Vec::new());
    let mut required: Vec<Json> = Vec::new();
    proof {
        lemma_members_view(Seq::<(String, Json)>::empty());
        lemma_items_view(required@);
        assert(fields@.take(0) =~= Seq::<FieldSpec>::empty());
        assert(json_view(properties) =~= JsonView::Object(seq![]));
    }
    let mut i: usize = 0;
    while i < fields.len()
        invariant
            i <= fields@.len(),
            properties is Object,
            json_view(properties) == config_properties(fields@.take(i as int)),
            items_view(required@) == required_keys(fields@.take(i as int)),
        decreases fields@.len() - i,
    {
        let field = &fields[i];
        proof {
            assert(fields@.take(i + 1).drop_last() =~= fields@.take(i as int));
            assert(fields@.take(i + 1).last() == fields@[i as int]);
        }
        let schema = field_to_schema(field);
        let prop = if field.required { schema } else { nullable(&schema) };
        if field.required {
            let ghost before = required@;
            required.push(string_json(field.key.as_str()));
            proof {
                lemma_items_view(before);
                lemma_items_view(required@);
                assert(required@.drop_last() =~= before);
            }
        }
        properties.set_key(field.key.clone(), prop);
        i = i + 1;
    }
    proof {
        assert(fields@.take(i as int) =~= fields@);
    }
    let mut schema = typed_json("object");
    schema.set_key("properties".to_owned(), properties);
    schema.set_key("additionalProperties".to_owned(), Json::Bool(true));
    if required.len() > 0 {
        proof {
            lemma_items_view(required@);
        }
        schema.set_key("required".to_owned(), Json::Array(required));
    }
    schema
}

/// `{"type": "integer", "minimum": lo, "maximum": hi}`.
pub open spec fn int_range(lo: int, hi: int) -> JsonView {
    set_key(
        set_key(typed("integer"@), "minimum"@, JsonView::Number(NumberView::Int(lo))),
        "maximum"@,
        JsonView::Number(NumberView::Int(hi)),
    )
}

/// `{"type": "array", "items": item}`.
pub open spec fn array_of(item: JsonView) -> JsonView {
    set_key(typed("array"@), "items"@, item)
}

/// The schema of a task's `id`.
pub open spec fn task_id_schema() -> JsonView {
    set_key(typed("string"@), "description"@, text("Task id (`[a-z][a-z0-9_]*`)."@))
}

/// A closed task object with these properties and these required keys.
pub open spec fn task_object(properties: JsonView, required: Seq<JsonView>) -> JsonView {
    set_key(
        set_key(
            set_key(typed("object"@), "additionalProperties"@, JsonView::Bool(false)),
            "properties"@,
            properties,
        ),
        "required"@,
        JsonView::Array(required),
    )
}

/// The task branch of one plugin: `id` and `type` (the plugin's type id)
/// required, then `retry`, `timeout_seconds` (1 to 3600), `on_error`, the
/// plugin's `config` schema and `outputs`, the shared parts by reference.
pub open spec fn plugin_branch(
    type_id: Seq<char>,
    description: Seq<char>,
    fields: Seq<FieldSpec>,
    retry: JsonView,
    on_error: JsonView,
    output: JsonView,
) -> JsonView {
    let type_schema = set_key(single("const"@, text(type_id)), "description"@, text(description));
    let p1 = set_key(single("id"@, task_id_schema()), "type"@, type_schema);
    let p2 = set_key(set_key(p1, "retry"@, retry), "timeout_seconds"@, int_range(1, 3600));
    let p3 = set_key(set_key(p2, "on_error"@, on_error), "config"@, config_schema(fields));
    let props = set_key(p3, "outputs"@, array_of(output));
    task_object(props, seq![text("id"@), text("type"@)])
}

/// The branch of the built-in fan-out: `items` is a template, `concurrency`
/// 1 to 256, and the children are tasks again.
pub open spec fn parallel_branch(output: JsonView) -> JsonView {
    let type_schema = set_key(single("const"@, text("parallel"@)), "description"@, text("Fan out child tasks over an items array."@));
    let items_schema = set_key(typed("string"@), "description"@, text("Template that renders to the array to fan out over."@));
    let p1 = set_key(single("id"@, task_id_schema()), "type"@, type_schema);
    let p2 = set_key(set_key(p1, "items"@, items_schema), "concurrency"@, int_range(1, 256));
    let p3 = set_key(p2, "tasks"@, array_of(single("$ref"@, text("#/$defs/Task"@))));
    let props = set_key(p3, "outputs"@, array_of(output));
    task_object(props, seq![text("id"@), text("type"@), text("items"@), text("concurrency"@)])
}

fn int_range_json(lo: u64, hi: u64) -> (r: Json)
    ensures
        json_view(r) == int_range(lo as int, hi as int),
{
    let mut m = typed_json("integer");
    m.set_key("minimum".to_owned(), Json::Number(Number::PosInt(lo)));
    m.set_key("maximum".to_owned(), Json::Number(Number::PosInt(hi)));
    m
}

fn array_of_json(item: Json) -> (r: Json)
    ensures
        json_view(r) == array_of(json_view(item)),
{
    let mut m = typed_json("array");
    m.set_key("items".to_owned(), item);
    m
}

fn task_id_json() -> (r: Json)
    ensures
        json_view(r) == task_id_schema(),
{
    let mut m = typed_json("string");
    m.set_key("description".to_owned(), string_json("Task id (`[a-z][a-z0-9_]*`)."));
    m
}

fn strings_json(a: &str, b: &str, rest: &[&str]) -> (r: Vec<Json>)
    ensures
        items_view(r@) == seq![text(a@), text(b@)] + rest@.map_values(|s: &str| text(s@)),
{
    let mut out: Vec<Json> = Vec::new();
    out.push(string_json(a));
    out.push(string_json(b));
    let ghost tail = rest@.map_values(|s: &str| text(s@));
    let mut i: usize = 0;
    proof {
        lemma_items_view(out@);
        assert(items_view(out@) =~= seq![text(a@), text(b@)] + tail.take(0));
    }
    while i < rest.len()
        invariant
            i <= rest@.len(),
            tail == rest@.map_values(|s: &str| text(s@)),
            items_view(out@) == seq![text(a@), text(b@)] + tail.take(i as int),
        decreases rest@.len() - i,
    {
        let ghost before = out@;
        out.push(string_json(rest[i]));
        proof {
            lemma_items_view(before);
            lemma_items_view(out@);
            assert(out@.drop_last() =~= before);
            assert(seq![text(a@), text(b@)] + tail.take(i + 1) =~= (seq![text(a@), text(b@)] + tail.take(i as int)).push(text(rest@[i as int]@)));
        }
        i = i + 1;
    }
    proof {
        assert(tail.take(i as int) =~= tail);
    }
    out
}

fn task_object_json(properties: Json, required: Vec<Json>) -> (r: Json)
    ensures
        json_view(r) == task_object(json_view(properties), items_view(required@)),
{
    let mut m = typed_json("object");
    m.set_key("additionalProperties".to_owned(), Json::Bool(false));
    m.set_key("properties".to_owned(), properties);
    m.set_key("required".to_owned(), Json::Array(required));
    m
}

/// One plugin's task branch of the flow schema, given the shared schemas of
/// a retry policy, an `on_error` value and an output declaration.
pub fn plugin_task_branch(
    type_id: &str,
    description: &str,
    fields: &Vec<FieldSpec>,
    retry_ref: &Json,
    on_error_ref: &Json,
    output_ref: &Json,
) -> (r: Json)
    ensures
        json_view(r) == plugin_branch(
            type_id@,
            description@,
            fields@,
            json_view(*retry_ref),
            json_view(*on_error_ref),
            json_view(*output_ref),
        ),
{
    let mut type_schema = single_json("const", string_json(type_id));
    type_schema.set_key("description".to_owned(), string_json(description));
    let mut props = single_json("id", task_id_json());
    props.set_key("type".to_owned(), type_schema);
    props.set_key("retry".to_owned(), retry_ref.copy());
    props.set_key("timeout_seconds".to_owned(), int_range_json(1, 3600));
    props.set_key("on_error".to_owned(), on_error_ref.copy());
    props.set_key("config".to_owned(), plugin_config_schema(fields));
    props.set_key("outputs".to_owned(), array_of_json(output_ref.copy()));
    let required = strings_json("id", "type", &[]);
    proof {
        assert(items_view(required@) =~= seq![text("id"@), text("type"@)]);
    }
    task_object_json(props, required)
}

/// The fan-out's task branch of the flow schema, given the shared schema of
/// an output declaration. Its children refer back to the task schema.
pub fn parallel_task_branch(output_ref: &Json) -> (r: Json)
    ensures
        json_view(r) == parallel_branch(json_view(*output_ref)),
{
    let mut type_schema = single_json("const", string_json("parallel"));
    type_schema.set_key("description".to_owned(), string_json("Fan out child tasks over an items array."));
    let mut items_schema = typed_json("string");
    items_schema.set_key("description".to_owned(), string_json("Template that renders to the array to fan out over."));
    let mut props = single_json("id", task_id_json());
    props.set_key("type".to_owned(), type_schema);
    props.set_key("items".to_owned(), items_schema);
    props.set_key("concurrency".to_owned(), int_range_json(1, 256));
    props.set_key("tasks".to_owned(), array_of_json(single_json("$ref", string_json("#/$defs/Task"))));
    props.set_key("outputs".to_owned(), array_of_json(output_ref.copy()));
    let required = strings_json("id", "type", &["items", "concurrency"]);
    proof {
        assert(items_view(required@) =~= seq![text("id"@), text("type"@), text("items"@), text("concurrency"@)]);
    }
    task_object_json(props, required)
}

} // verus!
