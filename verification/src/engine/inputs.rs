//! Run inputs: their declared types, and how supplied values and defaults
//! become the inputs a run executes with.

use vstd::prelude::*;
use crate::config::{debug_quoted, debug_text};
use crate::expr::grammar::template;
use crate::expr::render::{now_rfc3339, render_at, render_result, outcome};
use crate::expr::{error_text, reference_paths, referenced_paths};
use crate::json::{find_member, lemma_insert_member_get, member, insert_member, insert_member_into, json_parse, json_view, lemma_members_view, members_view, parse_json, Json, JsonView, Number, NumberView};
use crate::model::{FlowDefinition, InputDef, InputType, VarDef};
use crate::text::{chars_of, push_str};

verus! {

/// The JSON type name of a value.
pub open spec fn json_kind(v: JsonView) -> Seq<char> {
    match v {
        JsonView::Null => "null"@,
        JsonView::Bool(_) => "boolean"@,
        JsonView::Number(_) => "number"@,
        JsonView::String(_) => "string"@,
        JsonView::Array(_) => "array"@,
        JsonView::Object(_) => "object"@,
    }
}

/// The JSON type name of a value.
pub fn json_type_name(value: &Json) -> (s: &'static str)
    ensures
        s@ == json_kind(json_view(*value)),
{
    match value {
        Json::Null => "null",
        Json::Bool(_) => "boolean",
        Json::Number(_) => "number",
        Json::String(_) => "string",
        Json::Array(_) => "array",
        Json::Object(_) => "object",
    }
}

/// The label of an input type in messages.
pub open spec fn label(t: InputType) -> Seq<char> {
    match t {
        InputType::String => "STRING"@,
        InputType::Array => "ARRAY"@,
        InputType::Date => "DATE"@,
        InputType::Int => "INT"@,
        InputType::Boolean => "BOOLEAN"@,
        InputType::Json => "JSON"@,
    }
}

/// The label of an input type in messages.
pub fn type_label(t: InputType) -> (s: &'static str)
    ensures
        s@ == label(t),
{
    match t {
        InputType::String => "STRING",
        InputType::Array => "ARRAY",
        InputType::Date => "DATE",
        InputType::Int => "INT",
        InputType::Boolean => "BOOLEAN",
        InputType::Json => "JSON",
    }
}

/// Whether a value has an input type, without coercion: strings for
/// `STRING` and `DATE`, integers for `INT`, booleans, arrays, and anything
/// for `JSON`.
pub open spec fn has_type(t: InputType, v: JsonView) -> bool {
    match t {
        InputType::String | InputType::Date => v is String,
        InputType::Int => v matches JsonView::Number(NumberView::Int(_)),
        InputType::Boolean => v is Bool,
        InputType::Array => v is Array,
        InputType::Json => true,
    }
}

/// Whether a value has an input type, without coercion.
pub fn type_matches(t: InputType, value: &Json) -> (b: bool)
    ensures
        b == has_type(t, json_view(*value)),
{
    match t {
        InputType::String | InputType::Date => matches!(value, Json::String(_)),
        InputType::Int => match value {
            Json::Number(Number::PosInt(_)) => true,
            Json::Number(Number::NegInt(_)) => true,
            _ => false,
        },
        InputType::Boolean => matches!(value, Json::Bool(_)),
        InputType::Array => matches!(value, Json::Array(_)),
        InputType::Json => true,
    }
}

// ---------------------------------------------------------------------------
// Secret references
// ---------------------------------------------------------------------------

/// Whether a reference path is rooted at `secrets`.
pub open spec fn secret_path(p: Seq<char>) -> bool {
    let root = seq!['s', 'e', 'c', 'r', 'e', 't', 's'];
    p == root || (p.len() > 7 && p.take(7) == root && (p[7] == '.' || p[7] == '['))
}

/// Whether a string parses as a template with at least one reference
/// rooted at `secrets`; a string that does not parse is no template.
pub open spec fn mentions_secrets(t: Seq<char>) -> bool {
    match template(t) {
        Ok(segs) => exists|i: int| 0 <= i < reference_paths(segs).len() && #[trigger] secret_path(reference_paths(segs)[i]),
        Err(_) => false,
    }
}

fn is_secret_path(p: &str) -> (b: bool)
    ensures
        b == secret_path(p@),
{
    let c = chars_of(p);
    let root = c.len() >= 7 && c[0] == 's' && c[1] == 'e' && c[2] == 'c' && c[3] == 'r' && c[4] == 'e' && c[5] == 't' && c[6] == 's';
    proof {
        let r = seq!['s', 'e', 'c', 'r', 'e', 't', 's'];
        if root {
            assert(c@.take(7) =~= r);
        }
        if p@.len() >= 7 && p@.take(7) == r {
            assert(p@.take(7)[0] == 's' && p@.take(7)[1] == 'e' && p@.take(7)[2] == 'c' && p@.take(7)[3] == 'r');
            assert(p@.take(7)[4] == 'e' && p@.take(7)[5] == 't' && p@.take(7)[6] == 's');
        }
        if c@.len() == 7 && root {
            assert(c@ =~= r);
        }
    }
    root && (c.len() == 7 || (c[7] == '.' || c[7] == '['))
}

/// Whether a string parses as a template that references `secrets`.
pub fn references_secrets(t: &str) -> (b: bool)
    ensures
        b == mentions_secrets(t@),
{
    match referenced_paths(t) {
        Err(_) => false,
        Ok(paths) => {
            let ghost segs = template(t@)->Ok_0;
            let ghost want = reference_paths(segs);
            assert(paths@.map_values(|p: String| p@) == want);
            assert(template(t@) == Ok::<_, crate::expr::grammar::Failure>(segs));
            let mut i: usize = 0;
            while i < paths.len()
                invariant
                    i <= paths@.len(),
                    want.len() == paths@.len(),
                    want == reference_paths(segs),
                    template(t@) == Ok::<_, crate::expr::grammar::Failure>(segs),
                    forall|k: int| 0 <= k < paths@.len() ==> #[trigger] want[k] == paths@[k]@,
                    forall|k: int| 0 <= k < i ==> !secret_path(#[trigger] want[k]),
                decreases paths@.len() - i,
            {
                assert(want[i as int] == paths@[i as int]@);
                if is_secret_path(paths[i].as_str()) {
                    assert(secret_path(want[i as int]));
                    assert(secret_path(reference_paths(segs)[i as int]));
                    assert(exists|k: int| 0 <= k < reference_paths(segs).len() && #[trigger] secret_path(reference_paths(segs)[k]));
                    assert(template(t@) is Ok);
                    assert(template(t@)->Ok_0 == segs);
                    assert(mentions_secrets(t@));
                    return true;
                }
                i = i + 1;
            }
            false
        },
    }
}

// ---------------------------------------------------------------------------
// Typing rendered values
// ---------------------------------------------------------------------------

/// A rendered input value made into its declared type: a string for an
/// `ARRAY`, `JSON`, `INT` or `BOOLEAN` input is read as JSON text; then the
/// value must have the type.
pub open spec fn default_value(t: InputType, rendered: JsonView) -> Result<JsonView, Seq<char>> {
    let parsed = match rendered {
        JsonView::String(s) => if t == InputType::Array || t == InputType::Json || t == InputType::Int || t == InputType::Boolean {
            match json_parse(s) {
                Some(v) => Ok(v),
                None => Err("value "@ + debug_text(s) + " is not valid "@ + label(t)),
            }
        } else {
            Ok(rendered)
        },
        _ => Ok(rendered),
    };
    match parsed {
        Err(e) => Err(e),
        Ok(v) => if has_type(t, v) {
            Ok(v)
        } else {
            Err("value rendered to "@ + json_kind(v) + ", expected "@ + label(t))
        },
    }
}

/// A JSON value, or a message, as sequences.
pub open spec fn value_outcome(r: Result<Json, String>) -> Result<JsonView, Seq<char>> {
    match r {
        Ok(v) => Ok(json_view(v)),
        Err(e) => Err(e@),
    }
}

/// Makes a rendered input value (a default, or a late-bound secret
/// template) into its declared type.
pub fn parse_default(t: InputType, rendered: Json) -> (r: Result<Json, String>)
    ensures
        value_outcome(r) == default_value(t, json_view(rendered)),
{
    let value = match &rendered {
        Json::String(s) => {
            if matches!(t, InputType::Array | InputType::Json | InputType::Int | InputType::Boolean) {
                match parse_json(s.as_str()) {
                    Some(v) => v,
                    None => {
                        let mut m = String::new();
                        push_str(&mut m, "value ");
                        push_str(&mut m, debug_quoted(s.as_str()).as_str());
                        push_str(&mut m, " is not valid ");
                        push_str(&mut m, type_label(t));
                        return Err(m);
                    },
                }
            } else {
                rendered
            }
        },
        _ => rendered,
    };
    if type_matches(t, &value) {
        Ok(value)
    } else {
        let mut m = String::new();
        push_str(&mut m, "value rendered to ");
        push_str(&mut m, json_type_name(&value));
        push_str(&mut m, ", expected ");
        push_str(&mut m, type_label(t));
        Err(m)
    }
}

// ---------------------------------------------------------------------------
// Object members as a map
// ---------------------------------------------------------------------------

/// The value of the first member with key `k`, and the members without it.
pub open spec fn take_key(m: Seq<(Seq<char>, JsonView)>, k: Seq<char>) -> Option<(JsonView, Seq<(Seq<char>, JsonView)>)>
    decreases m.len(),
{
    if m.len() == 0 {
        None
    } else if m[0].0 == k {
        Some((m[0].1, m.drop_first()))
    } else {
        match take_key(m.drop_first(), k) {
            Some((v, rest)) => Some((v, seq![m[0]] + rest)),
            None => None,
        }
    }
}

proof fn lemma_take_key_at(m: Seq<(Seq<char>, JsonView)>, k: Seq<char>, i: int)
    requires
        0 <= i < m.len(),
        m[i].0 == k,
        forall|j: int| 0 <= j < i ==> m[j].0 != k,
    ensures
        take_key(m, k) == Some((m[i].1, m.remove(i))),
    decreases i,
{
    if i > 0 {
        lemma_take_key_at(m.drop_first(), k, i - 1);
        assert(seq![m[0]] + m.drop_first().remove(i - 1) =~= m.remove(i));
    } else {
        assert(m.drop_first() =~= m.remove(0));
    }
}

proof fn lemma_take_key_none(m: Seq<(Seq<char>, JsonView)>, k: Seq<char>)
    requires
        forall|j: int| 0 <= j < m.len() ==> m[j].0 != k,
    ensures
        take_key(m, k) is None,
    decreases m.len(),
{
    if m.len() > 0 {
        lemma_take_key_none(m.drop_first(), k);
    }
}

/// Removes the first member with key `k` and returns its value.
pub fn remove_key(members: &mut Vec<(String, Json)>, k: &str) -> (r: Option<Json>)
    ensures
        match take_key(members_view(old(members)@), k@) {
            Some((v, rest)) => r matches Some(x) && json_view(x) == v && members_view(final(members)@) == rest,
            None => r is None && members_view(final(members)@) == members_view(old(members)@),
        },
{
    proof {
        lemma_members_view(members@);
    }
    let ghost m = members_view(members@);
    let mut i: usize = 0;
    while i < members.len()
        invariant
            i <= members@.len(),
            m == members_view(members@),
            members@ == old(members)@,
            m.len() == members@.len(),
            forall|j: int| 0 <= j < members@.len() ==> #[trigger] m[j] == (members@[j].0@, json_view(members@[j].1)),
            forall|j: int| 0 <= j < i ==> m[j].0 != k@,
        decreases members@.len() - i,
    {
        if crate::text::str_eq(members[i].0.as_str(), k) {
            proof {
                lemma_take_key_at(m, k@, i as int);
            }
            let ghost old_members = members@;
            let (_, v) = members.remove(i);
            proof {
                lemma_members_view(members@);
                assert forall|j: int| 0 <= j < members@.len() implies #[trigger] members_view(members@)[j] == m.remove(i as int)[j] by {
                    if j < i {
                        assert(members@[j] == old_members[j]);
                    } else {
                        assert(members@[j] == old_members[j + 1]);
                    }
                }
                assert(members_view(members@) =~= m.remove(i as int));
            }
            return Some(v);
        }
        i = i + 1;
    }
    proof {
        lemma_take_key_none(m, k@);
    }
    None
}

/// An object of string values from a list of variables, inserted in order.
pub open spec fn vars_members(vars: Seq<VarDef>) -> Seq<(Seq<char>, JsonView)>
    decreases vars.len(),
{
    if vars.len() == 0 {
        seq![]
    } else {
        insert_member(vars_members(vars.drop_last()), vars.last().id@, JsonView::String(vars.last().value@))
    }
}

/// The flow's variables as object members, each a literal string.
pub fn vars_object(vars: &Vec<VarDef>) -> (r: Vec<(String, Json)>)
    ensures
        members_view(r@) == vars_members(vars@),
{
    let mut r: Vec<(String, Json)> = Vec::new();
    let mut i: usize = 0;
    proof {
        assert(vars@.take(0) =~= Seq::<VarDef>::empty());
        lemma_members_view(r@);
    }
    while i < vars.len()
        invariant
            i <= vars@.len(),
            members_view(r@) == vars_members(vars@.take(i as int)),
        decreases vars@.len() - i,
    {
        proof {
            assert(vars@.take(i + 1).drop_last() =~= vars@.take(i as int));
            assert(vars@.take(i + 1).last() == vars@[i as int]);
        }
        insert_member_into(&mut r, vars[i].id.clone(), Json::String(vars[i].value.clone()));
        i = i + 1;
    }
    proof {
        assert(vars@.take(vars@.len() as int) =~= vars@);
    }
    r
}

/// An object with one member.
fn single(key: &str, value: Json) -> (r: Json)
    ensures
        json_view(r) == JsonView::Object(seq![(key@, json_view(value))]),
{
    let ghost v = json_view(value);
    let mut m: Vec<(String, Json)> = Vec::new();
    m.push((key.to_string(), value));
    proof {
        lemma_members_view(m@);
        assert(members_view(m@) =~= seq![(key@, v)]);
    }
    Json::Object(m)
}

/// The context input defaults render in when a run is created: the flow's
/// variables as literal strings, and no secrets.
pub open spec fn create_context(def_vars: Seq<VarDef>) -> JsonView {
    JsonView::Object(seq![("vars"@, JsonView::Object(vars_members(def_vars)))])
}

/// The context input defaults render in when a run is created.
pub fn create_time_render_ctx(def: &FlowDefinition) -> (r: Json)
    ensures
        json_view(r) == create_context(def.variables@),
{
    let vars = vars_object(&def.variables);
    proof {
        lemma_members_view(vars@);
    }
    single("vars", Json::Object(vars))
}

// ---------------------------------------------------------------------------
// Resolving inputs when a run is created
// ---------------------------------------------------------------------------

/// The text of a render error.
pub open spec fn render_error_text(e: (Seq<char>, Option<int>)) -> Seq<char> {
    error_text(e.0, match e.1 { Some(o) => Some(o as nat), None => None })
}

/// `input "<id>": ` before a message about that input.
pub open spec fn about_input(id: Seq<char>) -> Seq<char> {
    "input \""@ + id + "\": "@
}

/// Resolving inputs so far: the resolved members, the problems found, and
/// the provided members not yet claimed by a declared input.
pub type ResolveState = (Seq<(Seq<char>, JsonView)>, Seq<Seq<char>>, Seq<(Seq<char>, JsonView)>);

/// One declared input, resolved when a run is created. A provided value is
/// taken as is when it is a string referencing secrets (it is rendered at
/// run start), else it must have the input's type. Without one, a default
/// referencing secrets is stored raw, another default is rendered in the
/// creation context and typed; a required input without either is a
/// problem.
pub open spec fn resolve_step(input: InputDef, st: ResolveState, ctx: JsonView, now: Seq<char>) -> ResolveState {
    let (out, errs, provided) = st;
    let id = input.id@;
    let t = input.input_type;
    match take_key(provided, id) {
        Some((v, rest)) => if (v matches JsonView::String(s) && mentions_secrets(s)) || has_type(t, v) {
            (insert_member(out, id, v), errs, rest)
        } else {
            (out, errs.push("input \""@ + id + "\": expected "@ + label(t) + ", got "@ + json_kind(v)), rest)
        },
        None => match input.default {
            Some(d) => if mentions_secrets(d@) {
                (insert_member(out, id, JsonView::String(d@)), errs, provided)
            } else {
                match render_result(d@, ctx, now) {
                    Ok(r) => match default_value(t, r) {
                        Ok(v) => (insert_member(out, id, v), errs, provided),
                        Err(m) => (out, errs.push(about_input(id) + m), provided),
                    },
                    Err(e) => (out, errs.push(about_input(id) + "default template error: "@ + render_error_text(e)), provided),
                }
            },
            None => if input.required {
                (out, errs.push("input \""@ + id + "\" is required"@), provided)
            } else {
                st
            },
        },
    }
}

/// The declared inputs from position `i` on, resolved in order.
pub open spec fn resolve_from(inputs: Seq<InputDef>, i: int, st: ResolveState, ctx: JsonView, now: Seq<char>) -> ResolveState
    decreases inputs.len() - i,
{
    if i < 0 || i >= inputs.len() {
        st
    } else {
        resolve_from(inputs, i + 1, resolve_step(inputs[i], st, ctx, now), ctx, now)
    }
}

/// The problems for provided keys no declared input claimed.
pub open spec fn unknown_inputs(rest: Seq<(Seq<char>, JsonView)>) -> Seq<Seq<char>> {
    rest.map_values(|m: (Seq<char>, JsonView)| "unknown input \""@ + m.0 + "\""@)
}

/// The inputs a run is created with, from the provided object's members,
/// with input defaults rendered at `now`: every problem, or the resolved
/// members.
pub open spec fn resolved_inputs(def: FlowDefinition, provided: Seq<(Seq<char>, JsonView)>, now: Seq<char>) -> Result<Seq<(Seq<char>, JsonView)>, Seq<Seq<char>>> {
    let (out, errs, rest) = resolve_from(def.inputs@, 0, (seq![], seq![], provided), create_context(def.variables@), now);
    let all = errs + unknown_inputs(rest);
    if all.len() == 0 { Ok(out) } else { Err(all) }
}

/// Whether a resolved value fits an input of type `t`: it has the type,
/// or it is a string referencing secrets, kept to be rendered at run start.
pub open spec fn fits_input(t: InputType, v: JsonView) -> bool {
    has_type(t, v) || (v matches JsonView::String(s) && mentions_secrets(s))
}

/// Whether no two declared inputs share an id.
pub open spec fn distinct_input_ids(inputs: Seq<InputDef>) -> bool {
    forall|a: int, b: int| 0 <= a < b < inputs.len() ==> inputs[a].id@ != inputs[b].id@
}

/// What resolution so far guarantees of the resolved members: each of the
/// first `i` inputs, when present, fits its type, and every member belongs
/// to one of them.
pub open spec fn resolved_fit(inputs: Seq<InputDef>, i: int, out: Seq<(Seq<char>, JsonView)>) -> bool {
    &&& forall|j: int| 0 <= j < i ==> (#[trigger] member(out, inputs[j].id@) matches Some(v) ==> fits_input(inputs[j].input_type, v))
    &&& forall|key: Seq<char>| #[trigger] member(out, key) is Some ==> exists|j: int| 0 <= j < i && inputs[j].id@ == key
}

proof fn lemma_default_value_typed(t: InputType, r: JsonView)
    ensures
        default_value(t, r) matches Ok(v) ==> has_type(t, v),
{
}

proof fn lemma_resolve_step_fit(inputs: Seq<InputDef>, i: int, st: ResolveState, ctx: JsonView, now: Seq<char>)
    requires
        0 <= i < inputs.len(),
        distinct_input_ids(inputs),
        resolved_fit(inputs, i, st.0),
    ensures
        resolved_fit(inputs, i + 1, resolve_step(inputs[i], st, ctx, now).0),
{
    let input = inputs[i];
    let id = input.id@;
    let out = st.0;
    let out2 = resolve_step(input, st, ctx, now).0;
    if let Some(d) = input.default {
        if let Ok(r) = render_result(d@, ctx, now) {
            lemma_default_value_typed(input.input_type, r);
        }
    }
    if out2 == out {
        assert forall|j: int| 0 <= j < i + 1 implies (#[trigger] member(out2, inputs[j].id@) matches Some(v) ==> fits_input(inputs[j].input_type, v)) by {
            if j == i && member(out, id) is Some {
                let w = choose|w: int| 0 <= w < i && inputs[w].id@ == id;
                assert(inputs[w].id@ != inputs[i].id@);
            }
        }
        assert forall|key: Seq<char>| #[trigger] member(out2, key) is Some implies exists|j: int| 0 <= j < i + 1 && inputs[j].id@ == key by {
            let w = choose|w: int| 0 <= w < i && inputs[w].id@ == key;
            assert(0 <= w < i + 1 && inputs[w].id@ == key);
        }
    } else {
        let v = choose|v: JsonView| out2 == insert_member(out, id, v) && fits_input(input.input_type, v);
        assert forall|j: int| 0 <= j < i + 1 implies (#[trigger] member(out2, inputs[j].id@) matches Some(x) ==> fits_input(inputs[j].input_type, x)) by {
            lemma_insert_member_get(out, id, v, inputs[j].id@);
            if j < i {
                assert(inputs[j].id@ != inputs[i].id@);
            }
        }
        assert forall|key: Seq<char>| #[trigger] member(out2, key) is Some implies exists|j: int| 0 <= j < i + 1 && inputs[j].id@ == key by {
            lemma_insert_member_get(out, id, v, key);
            if key != id {
                let w = choose|w: int| 0 <= w < i && inputs[w].id@ == key;
                assert(0 <= w < i + 1 && inputs[w].id@ == key);
            } else {
                assert(inputs[i].id@ == key);
            }
        }
    }
}

proof fn lemma_resolve_from_fit(inputs: Seq<InputDef>, i: int, st: ResolveState, ctx: JsonView, now: Seq<char>)
    requires
        0 <= i <= inputs.len(),
        distinct_input_ids(inputs),
        resolved_fit(inputs, i, st.0),
    ensures
        resolved_fit(inputs, inputs.len() as int, resolve_from(inputs, i, st, ctx, now).0),
    decreases inputs.len() - i,
{
    if i < inputs.len() {
        lemma_resolve_step_fit(inputs, i, st, ctx, now);
        lemma_resolve_from_fit(inputs, i + 1, resolve_step(inputs[i], st, ctx, now), ctx, now);
    }
}

/// The inputs a run is created with are typed: in a successful resolution,
/// the value of each declared input, when there is one, has the input's
/// type (a default is rendered, then parsed and checked) or is a string
/// referencing secrets, kept for run start; and every resolved value
/// belongs to a declared input. Input ids are taken to be distinct, as
/// validation demands.
pub proof fn lemma_resolved_inputs_typed(def: FlowDefinition, provided: Seq<(Seq<char>, JsonView)>, now: Seq<char>)
    requires
        distinct_input_ids(def.inputs@),
        resolved_inputs(def, provided, now) is Ok,
    ensures
        forall|i: int| 0 <= i < def.inputs@.len() ==>
            (#[trigger] member(resolved_inputs(def, provided, now)->Ok_0, def.inputs@[i].id@) matches Some(v)
                ==> fits_input(def.inputs@[i].input_type, v)),
        forall|key: Seq<char>| #[trigger] member(resolved_inputs(def, provided, now)->Ok_0, key) is Some
            ==> exists|i: int| 0 <= i < def.inputs@.len() && def.inputs@[i].id@ == key,
{
    let st: ResolveState = (seq![], seq![], provided);
    assert forall|key: Seq<char>| #[trigger] member(st.0, key) is Some implies exists|j: int| 0 <= j < 0 && def.inputs@[j].id@ == key by {
        assert(member(st.0, key) is None);
    }
    lemma_resolve_from_fit(def.inputs@, 0, st, create_context(def.variables@), now);
}

/// A list of strings as sequences.
pub open spec fn texts(v: Seq<String>) -> Seq<Seq<char>> {
    v.map_values(|x: String| x@)
}

/// Resolved inputs, or the problems, as sequences.
pub open spec fn resolve_outcome(r: Result<Vec<(String, Json)>, Vec<String>>) -> Result<Seq<(Seq<char>, JsonView)>, Seq<Seq<char>>> {
    match r {
        Ok(m) => Ok(members_view(m@)),
        Err(e) => Err(texts(e@)),
    }
}

fn input_message(id: &str, rest: &str) -> (s: String)
    ensures
        s@ == about_input(id@) + rest@,
{
    let mut s = String::new();
    push_str(&mut s, "input \"");
    push_str(&mut s, id);
    push_str(&mut s, "\": ");
    push_str(&mut s, rest);
    s
}

/// Resolves one declared input when a run is created.
fn resolve_one(input: &InputDef, provided: &mut Vec<(String, Json)>, out: &mut Vec<(String, Json)>, errors: &mut Vec<String>, ctx: &Json, now: &str)
    ensures
        (members_view(final(out)@), texts(final(errors)@), members_view(final(provided)@))
            == resolve_step(*input, (members_view(old(out)@), texts(old(errors)@), members_view(old(provided)@)), json_view(*ctx), now@),
{
        let ghost st: ResolveState = (members_view(out@), texts(errors@), members_view(provided@));
        let ghost errs0 = errors@;
        let ghost next = resolve_step(*input, st, json_view(*ctx), now@);
        let id = input.id.as_str();
        let t = input.input_type;
        match remove_key(provided, id) {
            Some(value) => {
                let secret = match &value {
                    Json::String(s) => references_secrets(s.as_str()),
                    _ => false,
                };
                if secret || type_matches(t, &value) {
                    insert_member_into(out, input.id.clone(), value);
                } else {
                    let mut m = String::new();
                    push_str(&mut m, "input \"");
                    push_str(&mut m, id);
                    push_str(&mut m, "\": expected ");
                    push_str(&mut m, type_label(t));
                    push_str(&mut m, ", got ");
                    push_str(&mut m, json_type_name(&value));
                    errors.push(m);
                    proof {
                        assert(texts(errors@) =~= texts(errs0).push(m@));
                    }
                }
            },
            None => {
                match &input.default {
                    Some(d) => {
                        if references_secrets(d.as_str()) {
                            insert_member_into(out, input.id.clone(), Json::String(d.clone()));
                        } else {
                            match render_at(d.as_str(), ctx, now) {
                                Ok(rendered) => match parse_default(t, rendered) {
                                    Ok(v) => {
                                        insert_member_into(out, input.id.clone(), v);
                                    },
                                    Err(msg) => {
                                        let m = input_message(id, msg.as_str());
                                        errors.push(m);
                                        proof {
                                            assert(texts(errors@) =~= texts(errs0).push(m@));
                                        }
                                    },
                                },
                                Err(e) => {
                                    let mut rest = "default template error: ".to_string();
                                    let text = e.to_string();
                                    push_str(&mut rest, text.as_str());
                                    let m = input_message(id, rest.as_str());
                                    errors.push(m);
                                    proof {
                                        assert(render_error_text(crate::expr::render::error_view(e)) == text@);
                                        assert(m@ =~= about_input(id@) + "default template error: "@ + render_error_text(crate::expr::render::error_view(e)));
                                        assert(texts(errors@) =~= texts(errs0).push(m@));
                                    }
                                },
                            }
                        }
                    },
                    None => {
                        if input.required {
                            let mut m = String::new();
                            push_str(&mut m, "input \"");
                            push_str(&mut m, id);
                            push_str(&mut m, "\" is required");
                            errors.push(m);
                            proof {
                                assert(texts(errors@) =~= texts(errs0).push(m@));
                            }
                        }
                    },
                }
            },
        }
        proof {
            assert(members_view(out@) =~= next.0);
            assert(texts(errors@) =~= next.1);
            assert(members_view(provided@) =~= next.2);
        }
}

/// Resolves the inputs a run is created with, rendering defaults at `now`.
pub fn resolve_inputs_at(def: &FlowDefinition, provided: Vec<(String, Json)>, now: &str) -> (r: Result<Vec<(String, Json)>, Vec<String>>)
    ensures
        resolve_outcome(r) == resolved_inputs(*def, members_view(provided@), now@),
{
    let mut provided = provided;
    let ctx = create_time_render_ctx(def);
    let ghost c = json_view(ctx);
    let mut out: Vec<(String, Json)> = Vec::new();
    let mut errors: Vec<String> = Vec::new();
    proof {
        lemma_members_view(out@);
    }
    let ghost start: ResolveState = (seq![], seq![], members_view(provided@));
    proof {
        assert(members_view(out@) =~= seq![]);
        assert(texts(errors@) =~= seq![]);
    }
    let mut i: usize = 0;
    while i < def.inputs.len()
        invariant
            i <= def.inputs@.len(),
            c == create_context(def.variables@),
            c == json_view(ctx),
            resolve_from(def.inputs@, 0, start, c, now@)
                == resolve_from(def.inputs@, i as int, (members_view(out@), texts(errors@), members_view(provided@)), c, now@),
        decreases def.inputs@.len() - i,
    {
        let input = &def.inputs[i];
        assert(def.inputs@[i as int] == *input);
        let ghost st: ResolveState = (members_view(out@), texts(errors@), members_view(provided@));
        resolve_one(input, &mut provided, &mut out, &mut errors, &ctx, now);
        proof {
            let st2: ResolveState = (members_view(out@), texts(errors@), members_view(provided@));
            assert(st2 == resolve_step(def.inputs@[i as int], st, c, now@));
            assert(resolve_from(def.inputs@, i as int, st, c, now@) == resolve_from(def.inputs@, i + 1, st2, c, now@));
        }
        i = i + 1;
    }
    proof {
        lemma_members_view(provided@);
    }
    let mut j: usize = 0;
    let ghost errs_known = texts(errors@);
    while j < provided.len()
        invariant
            j <= provided@.len(),
            members_view(provided@).len() == provided@.len(),
            forall|k: int| 0 <= k < provided@.len() ==> #[trigger] members_view(provided@)[k] == (provided@[k].0@, json_view(provided@[k].1)),
            texts(errors@) == errs_known + unknown_inputs(members_view(provided@)).take(j as int),
        decreases provided@.len() - j,
    {
        let ghost before = errors@;
        let mut m = String::new();
        push_str(&mut m, "unknown input \"");
        push_str(&mut m, provided[j].0.as_str());
        push_str(&mut m, "\"");
        errors.push(m);
        proof {
            assert(unknown_inputs(members_view(provided@))[j as int] == m@);
            assert(unknown_inputs(members_view(provided@)).take(j + 1) =~= unknown_inputs(members_view(provided@)).take(j as int).push(m@));
            assert(texts(errors@) =~= texts(before).push(m@));
        }
        j = j + 1;
    }
    proof {
        assert(unknown_inputs(members_view(provided@)).take(provided@.len() as int) =~= unknown_inputs(members_view(provided@)));
    }
    if errors.len() == 0 {
        proof {
            assert(texts(errors@).len() == 0);
        }
        Ok(out)
    } else {
        Err(errors)
    }
}

/// Resolves the inputs a run is created with, rendering defaults now.
pub fn resolve_inputs(def: &FlowDefinition, provided: Vec<(String, Json)>) -> (r: Result<Vec<(String, Json)>, Vec<String>>)
    ensures
        exists|now: Seq<char>| resolve_outcome(r) == #[trigger] resolved_inputs(*def, members_view(provided@), now),
{
    let now = now_rfc3339();
    resolve_inputs_at(def, provided, now.as_str())
}

// ---------------------------------------------------------------------------
// Finalizing inputs when a run starts
// ---------------------------------------------------------------------------

/// A template rendered at run start and made into the input's type.
pub open spec fn typed_render(id: Seq<char>, t: InputType, text: Seq<char>, what: Seq<char>, ctx: JsonView, now: Seq<char>) -> Result<JsonView, Seq<char>> {
    match render_result(text, ctx, now) {
        Err(e) => Err(about_input(id) + what + render_error_text(e)),
        Ok(r) => match default_value(t, r) {
            Err(m) => Err(about_input(id) + m),
            Ok(v) => Ok(v),
        },
    }
}

/// One declared input at run start: a missing input gets its default
/// rendered and typed, or fails the run when it is required; a stored
/// string referencing secrets is rendered and typed now.
pub open spec fn finalize_step(input: InputDef, inputs: Seq<(Seq<char>, JsonView)>, ctx: JsonView, now: Seq<char>) -> Result<Seq<(Seq<char>, JsonView)>, Seq<char>> {
    let id = input.id@;
    let t = input.input_type;
    match member(inputs, id) {
        None => match input.default {
            Some(d) => match typed_render(id, t, d@, "default template error: "@, ctx, now) {
                Err(e) => Err(e),
                Ok(v) => Ok(insert_member(inputs, id, v)),
            },
            None => if input.required {
                Err("input \""@ + id + "\" is required and has no value"@)
            } else {
                Ok(inputs)
            },
        },
        Some(JsonView::String(s)) => if mentions_secrets(s) {
            match typed_render(id, t, s, "template error: "@, ctx, now) {
                Err(e) => Err(e),
                Ok(v) => Ok(insert_member(inputs, id, v)),
            }
        } else {
            Ok(inputs)
        },
        Some(_) => Ok(inputs),
    }
}

/// The declared inputs from position `i` on, finalized in order; the first
/// error ends it.
pub open spec fn finalize_from(defs: Seq<InputDef>, i: int, inputs: Seq<(Seq<char>, JsonView)>, ctx: JsonView, now: Seq<char>) -> Result<Seq<(Seq<char>, JsonView)>, Seq<char>>
    decreases defs.len() - i,
{
    if i < 0 || i >= defs.len() {
        Ok(inputs)
    } else {
        match finalize_step(defs[i], inputs, ctx, now) {
            Err(e) => Err(e),
            Ok(next) => finalize_from(defs, i + 1, next, ctx, now),
        }
    }
}

/// The context inputs are finalized in: `{"secrets": ..., "vars": ...}`.
pub open spec fn start_context(vars: Seq<(Seq<char>, JsonView)>, secrets: Seq<(Seq<char>, JsonView)>) -> JsonView {
    JsonView::Object(insert_member(insert_member(seq![], "vars"@, JsonView::Object(vars)), "secrets"@, JsonView::Object(secrets)))
}

/// The inputs a run executes with, from its stored inputs (an object, else
/// nothing), with templates rendered at `now`.
pub open spec fn finalized_inputs(defs: Seq<InputDef>, stored: JsonView, vars: Seq<(Seq<char>, JsonView)>, secrets: Seq<(Seq<char>, JsonView)>, now: Seq<char>) -> Result<Seq<(Seq<char>, JsonView)>, Seq<char>> {
    let start = match stored {
        JsonView::Object(m) => m,
        _ => seq![],
    };
    finalize_from(defs, 0, start, start_context(vars, secrets), now)
}

/// Renders a template at run start and types it for an input.
fn typed_render_exec(id: &str, t: InputType, text: &str, what: &str, ctx: &Json, now: &str) -> (r: Result<Json, String>)
    ensures
        value_outcome(r) == typed_render(id@, t, text@, what@, json_view(*ctx), now@),
{
    match render_at(text, ctx, now) {
        Err(e) => {
            let mut rest = what.to_string();
            let etext = e.to_string();
            push_str(&mut rest, etext.as_str());
            let m = input_message(id, rest.as_str());
            proof {
                assert(render_error_text(crate::expr::render::error_view(e)) == etext@);
                assert(m@ =~= about_input(id@) + what@ + render_error_text(crate::expr::render::error_view(e)));
            }
            Err(m)
        },
        Ok(rendered) => match parse_default(t, rendered) {
            Err(msg) => Err(input_message(id, msg.as_str())),
            Ok(v) => Ok(v),
        },
    }
}

/// Finalizes one declared input at run start.
fn finalize_one(input: &InputDef, inputs: &mut Vec<(String, Json)>, ctx: &Json, now: &str) -> (r: Result<(), String>)
    ensures
        match finalize_step(*input, members_view(old(inputs)@), json_view(*ctx), now@) {
            Ok(next) => r is Ok && members_view(final(inputs)@) == next,
            Err(e) => r matches Err(x) && x@ == e,
        },
{
    let id = input.id.as_str();
    let t = input.input_type;
    let found = match find_member(inputs, id) {
        None => None,
        Some(v) => Some(match v {
            Json::String(s) => Some(s.clone()),
            _ => None,
        }),
    };
    match found {
        None => match &input.default {
            Some(d) => {
                let v = typed_render_exec(id, t, d.as_str(), "default template error: ", ctx, now)?;
                insert_member_into(inputs, input.id.clone(), v);
                Ok(())
            },
            None => {
                if input.required {
                    let mut m = String::new();
                    push_str(&mut m, "input \"");
                    push_str(&mut m, id);
                    push_str(&mut m, "\" is required and has no value");
                    Err(m)
                } else {
                    Ok(())
                }
            },
        },
        Some(Some(s)) => {
            if references_secrets(s.as_str()) {
                let v = typed_render_exec(id, t, s.as_str(), "template error: ", ctx, now)?;
                insert_member_into(inputs, input.id.clone(), v);
            }
            Ok(())
        },
        Some(None) => Ok(()),
    }
}

/// Finalizes a run's stored inputs at run start, rendering templates at
/// `now` in a context of the flow's variables and the resolved secrets.
pub fn finalize_inputs_at(defs: &Vec<InputDef>, stored: Json, vars: Vec<(String, Json)>, secrets: Vec<(String, Json)>, now: &str) -> (r: Result<Vec<(String, Json)>, String>)
    ensures
        match finalized_inputs(defs@, json_view(stored), members_view(vars@), members_view(secrets@), now@) {
            Ok(m) => r matches Ok(x) && members_view(x@) == m,
            Err(e) => r matches Err(x) && x@ == e,
        },
{
    let ghost vv = members_view(vars@);
    let ghost sv = members_view(secrets@);
    proof {
        lemma_members_view(vars@);
        lemma_members_view(secrets@);
    }
    let mut inputs: Vec<(String, Json)> = match stored {
        Json::Object(m) => m,
        _ => Vec::new(),
    };
    proof {
        lemma_members_view(inputs@);
    }
    let mut cm: Vec<(String, Json)> = Vec::new();
    proof {
        lemma_members_view(cm@);
        assert(members_view(cm@) =~= seq![]);
    }
    insert_member_into(&mut cm, "vars".to_string(), Json::Object(vars));
    insert_member_into(&mut cm, "secrets".to_string(), Json::Object(secrets));
    let ctx = Json::Object(cm);
    let ghost c = json_view(ctx);
    assert(c == start_context(vv, sv));
    let ghost start = members_view(inputs@);
    let ghost want = finalized_inputs(defs@, json_view(stored), vv, sv, now@);
    assert(want == finalize_from(defs@, 0, start, c, now@));
    let mut i: usize = 0;
    while i < defs.len()
        invariant
            i <= defs@.len(),
            c == json_view(ctx),
            want == finalize_from(defs@, 0, start, c, now@),
            want == finalized_inputs(defs@, json_view(stored), members_view(vars@), members_view(secrets@), now@),
            finalize_from(defs@, 0, start, c, now@) == finalize_from(defs@, i as int, members_view(inputs@), c, now@),
        decreases defs@.len() - i,
    {
        let ghost before = members_view(inputs@);
        assert(defs@[i as int] == defs[i as int]);
        match finalize_one(&defs[i], &mut inputs, &ctx, now) {
            Err(e) => {
                assert(finalize_from(defs@, i as int, before, c, now@) == Err::<Seq<(Seq<char>, JsonView)>, Seq<char>>(e@));
                return Err(e);
            },
            Ok(()) => {},
        }
        i = i + 1;
    }
    Ok(inputs)
}

/// Finalizes a run's stored inputs at run start, rendering templates now.
pub fn finalize_inputs(defs: &Vec<InputDef>, stored: Json, vars: Vec<(String, Json)>, secrets: Vec<(String, Json)>) -> (r: Result<Vec<(String, Json)>, String>)
    ensures
        exists|now: Seq<char>| match #[trigger] finalized_inputs(defs@, json_view(stored), members_view(vars@), members_view(secrets@), now) {
            Ok(m) => r matches Ok(x) && members_view(x@) == m,
            Err(e) => r matches Err(x) && x@ == e,
        },
{
    let now = now_rfc3339();
    finalize_inputs_at(defs, stored, vars, secrets, now.as_str())
}

} // verus!
