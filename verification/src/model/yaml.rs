//! The YAML form of a flow: the JSON wire shape of its definition plus one
//! top-level key, the flow's `id`, written first on export and taken out
//! on import.

use vstd::prelude::*;
use crate::json::{from_serde, get_key, json_view, members_view, member, Json, JsonView};
use crate::model::flow::ModelError;
use crate::text::{push_str, string_of, trim_end_chars, trimmed_end};

verus! {

/// The YAML document `serde_yaml_ng` writes for a string.
pub uninterp spec fn yaml_string(s: Seq<char>) -> Result<Seq<char>, Seq<char>>;

/// The value `serde_yaml_ng` reads from a YAML text, as JSON, or the
/// error's message.
pub uninterp spec fn yaml_value(text: Seq<char>) -> Result<JsonView, Seq<char>>;

/// Writes a string as YAML by `serde_yaml_ng::to_string`. Named, not
/// stated.
#[verifier::external_body]
fn yaml_scalar(s: &str) -> (r: Result<String, String>)
    ensures
        match r {
            Ok(t) => yaml_string(s@) == Ok::<_, Seq<char>>(t@),
            Err(e) => yaml_string(s@) == Err::<Seq<char>, _>(e@),
        },
{
    match serde_yaml_ng::to_string(s) {
        Ok(t) => Ok(t),
        Err(e) => Err(e.to_string()),
    }
}

/// Reads a YAML text by `serde_yaml_ng::from_str::<serde_json::Value>`.
/// Named, not stated.
#[verifier::external_body]
fn parse_yaml(text: &str) -> (r: Result<Json, String>)
    ensures
        match r {
            Ok(v) => yaml_value(text@) == Ok::<_, Seq<char>>(json_view(v)),
            Err(e) => yaml_value(text@) == Err::<JsonView, _>(e@),
        },
{
    match serde_yaml_ng::from_str::<serde_json::Value>(text) {
        Ok(v) => Ok(from_serde(&v)),
        Err(e) => Err(e.to_string()),
    }
}

/// The first line of a flow's YAML export: `id: ` and the id as a YAML
/// scalar, which must fit on one line.
pub open spec fn yaml_header_of(flow_id: Seq<char>) -> Result<Seq<char>, Seq<char>> {
    match yaml_string(flow_id) {
        Err(e) => Err("cannot serialize flow id: "@ + e),
        Ok(t) => if trimmed_end(t).contains('\n') {
            Err("flow id must be a single-line string"@)
        } else {
            Ok("id: "@ + trimmed_end(t) + "\n"@)
        },
    }
}

/// The first line of a flow's YAML export; the definition's YAML follows
/// it.
pub fn yaml_header(flow_id: &str) -> (r: Result<String, ModelError>)
    ensures
        match r {
            Ok(h) => yaml_header_of(flow_id@) == Ok::<_, Seq<char>>(h@),
            Err(e) => yaml_header_of(flow_id@) == Err::<Seq<char>, _>(e.message@),
        },
{
    let t = match yaml_scalar(flow_id) {
        Ok(t) => t,
        Err(e) => {
            let mut m = "cannot serialize flow id: ".to_owned();
            push_str(&mut m, e.as_str());
            return Err(ModelError::new(m));
        },
    };
    let c = trim_end_chars(t.as_str());
    let mut i: usize = 0;
    while i < c.len()
        invariant
            i <= c@.len(),
            c@ == trimmed_end(t@),
            yaml_string(flow_id@) == Ok::<_, Seq<char>>(t@),
            forall|k: int| 0 <= k < i ==> c@[k] != '\n',
        decreases c@.len() - i,
    {
        if c[i] == '\n' {
            proof {
                assert(c@.contains('\n'));
            }
            return Err(ModelError::new("flow id must be a single-line string".to_owned()));
        }
        i = i + 1;
    }
    proof {
        assert(!c@.contains('\n'));
    }
    let mut h = "id: ".to_owned();
    push_str(&mut h, string_of(&c).as_str());
    push_str(&mut h, "\n");
    Ok(h)
}

/// The members of an object without the one under `key`.
pub open spec fn without_key(m: Seq<(Seq<char>, JsonView)>, key: Seq<char>) -> Seq<(Seq<char>, JsonView)>
    decreases m.len(),
{
    if m.len() == 0 {
        m
    } else if m.last().0 == key {
        without_key(m.drop_last(), key)
    } else {
        without_key(m.drop_last(), key).push(m.last())
    }
}

/// A flow document split into its `id` and the definition that remains:
/// the document must be a mapping with a string `id`.
pub open spec fn flow_document_of(doc: JsonView) -> Result<(Seq<char>, JsonView), Seq<char>> {
    match doc {
        JsonView::Object(m) => match member(m, "id"@) {
            Some(JsonView::String(id)) => Ok((id, JsonView::Object(without_key(m, "id"@)))),
            Some(_) => Err("top-level `id` must be a string"@),
            None => Err("missing top-level `id`"@),
        },
        _ => Err("flow document must be a mapping"@),
    }
}

/// What importing a flow's YAML yields: its `id` and the JSON of its
/// definition, or why it cannot be read.
pub open spec fn flow_yaml_of(text: Seq<char>) -> Result<(Seq<char>, JsonView), Seq<char>> {
    match yaml_value(text) {
        Err(e) => Err("invalid YAML: "@ + e),
        Ok(doc) => flow_document_of(doc),
    }
}

/// Looking a key up in members with one more member at the end.
proof fn lemma_member_push<V>(m: Seq<(Seq<char>, V)>, x: (Seq<char>, V), key: Seq<char>)
    ensures
        member(m.push(x), key) == match member(m, key) {
            Some(v) => Some(v),
            None => if x.0 == key { Some(x.1) } else { None },
        },
    decreases m.len(),
{
    if m.len() > 0 {
        lemma_member_push(m.drop_first(), x, key);
        assert(m.push(x).drop_first() =~= m.drop_first().push(x));
        assert(m.push(x)[0] == m[0]);
        if m[0].0 != key {
            assert(member(m.push(x), key) == member(m.push(x).drop_first(), key));
            assert(member(m, key) == member(m.drop_first(), key));
        }
    } else {
        assert(m.push(x).drop_first() =~= Seq::<(Seq<char>, V)>::empty());
        assert(m.push(x)[0] == x);
    }
}

/// Splits a flow document into its `id` and the rest.
pub fn flow_document(doc: Json) -> (r: Result<(String, Json), ModelError>)
    ensures
        match r {
            Ok((id, rest)) => flow_document_of(json_view(doc)) == Ok::<_, Seq<char>>((id@, json_view(rest))),
            Err(e) => flow_document_of(json_view(doc)) == Err::<(Seq<char>, JsonView), _>(e.message@),
        },
{
    match &doc {
        Json::Object(members) => {
            proof {
                crate::json::lemma_members_view(members@);
            }
            let ghost mv = members_view(members@);
            let mut id: Option<Option<String>> = None;
            let mut rest: Vec<(String, Json)> = Vec::new();
            let mut i: usize = 0;
            proof {
                assert(mv.take(0) =~= Seq::<(Seq<char>, JsonView)>::empty());
                crate::json::lemma_members_view(rest@);
                assert(members_view(rest@) =~= Seq::<(Seq<char>, JsonView)>::empty());
            }
            while i < members.len()
                invariant
                    i <= members@.len(),
                    mv == members_view(members@),
                    mv.len() == members@.len(),
                    forall|k: int| 0 <= k < members@.len() ==> #[trigger] mv[k] == (members@[k].0@, json_view(members@[k].1)),
                    members_view(rest@) == without_key(mv.take(i as int), "id"@),
                    match id {
                        None => member(mv.take(i as int), "id"@) is None,
                        Some(Some(s)) => member(mv.take(i as int), "id"@) == Some(JsonView::String(s@)),
                        Some(None) => member(mv.take(i as int), "id"@) is Some
                            && !(member(mv.take(i as int), "id"@)->0 is String),
                    },
                decreases members@.len() - i,
            {
                proof {
                    assert(mv.take(i + 1) =~= mv.take(i as int).push(mv[i as int]));
                    assert(mv.take(i + 1).drop_last() =~= mv.take(i as int));
                    lemma_member_push(mv.take(i as int), mv[i as int], "id"@);
                    crate::json::lemma_members_view(rest@);
                }
                if crate::text::str_eq(members[i].0.as_str(), "id") {
                    if id.is_none() {
                        id = Some(match &members[i].1 {
                            Json::String(s) => Some(s.clone()),
                            _ => None,
                        });
                    }
                } else {
                    let ghost before = rest@;
                    rest.push((members[i].0.clone(), members[i].1.copy()));
                    proof {
                        crate::json::lemma_members_view(rest@);
                        assert(rest@.drop_last() =~= before);
                        assert(members_view(rest@) =~= members_view(before).push(mv[i as int]));
                    }
                }
                i = i + 1;
            }
            proof {
                assert(mv.take(members@.len() as int) =~= mv);
            }
            match id {
                Some(Some(s)) => {
                    let r = Json::Object(rest);
                    Ok((s, r))
                },
                Some(None) => Err(ModelError::new("top-level `id` must be a string".to_owned())),
                None => Err(ModelError::new("missing top-level `id`".to_owned())),
            }
        },
        _ => Err(ModelError::new("flow document must be a mapping".to_owned())),
    }
}

/// Reads a flow's YAML: its `id` and the JSON of its definition.
pub fn read_flow_yaml(text: &str) -> (r: Result<(String, Json), ModelError>)
    ensures
        match r {
            Ok((id, rest)) => flow_yaml_of(text@) == Ok::<_, Seq<char>>((id@, json_view(rest))),
            Err(e) => flow_yaml_of(text@) == Err::<(Seq<char>, JsonView), _>(e.message@),
        },
{
    match parse_yaml(text) {
        Err(e) => {
            let mut m = "invalid YAML: ".to_owned();
            push_str(&mut m, e.as_str());
            Err(ModelError::new(m))
        },
        Ok(doc) => flow_document(doc),
    }
}

} // verus!
