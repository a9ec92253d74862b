//! The plugin protocol's events, as a plugin writes them: newline-delimited
//! JSON objects. `log` lines stream while a request runs; `result` or
//! `error` ends it; persistent plugins tag every event with the request id.

use vstd::prelude::*;
use crate::json::{insert_member, insert_member_into, json_text, json_view, lemma_members_view, members_view, Json, JsonView, Number, NumberView};
use crate::plugins::PluginError;

verus! {

/// An object from members inserted in order.
pub open spec fn object_of(m: Seq<(Seq<char>, JsonView)>) -> Seq<(Seq<char>, JsonView)>
    decreases m.len(),
{
    if m.len() == 0 {
        seq![]
    } else {
        insert_member(object_of(m.drop_last()), m.last().0, m.last().1)
    }
}

/// An event with its request id added, when it has one.
pub open spec fn tagged(members: Seq<(Seq<char>, JsonView)>, id: Option<u64>) -> JsonView {
    match id {
        Some(n) => JsonView::Object(insert_member(object_of(members), "id"@, JsonView::Number(NumberView::Int(n as int)))),
        None => JsonView::Object(object_of(members)),
    }
}

/// A `log` event.
pub open spec fn log_event_view(level: Seq<char>, message: Seq<char>, id: Option<u64>) -> JsonView {
    tagged(seq![("type"@, JsonView::String("log"@)), ("level"@, JsonView::String(level)), ("message"@, JsonView::String(message))], id)
}

/// The terminal event of a request: its `result`, or its `error`.
pub open spec fn outcome_event_view(outcome: Result<JsonView, (Seq<char>, bool)>, id: Option<u64>) -> JsonView {
    match outcome {
        Ok(v) => tagged(seq![("type"@, JsonView::String("result"@)), ("value"@, v)], id),
        Err((m, r)) => tagged(seq![("type"@, JsonView::String("error"@)), ("message"@, JsonView::String(m)), ("retryable"@, JsonView::Bool(r))], id),
    }
}

/// Key-value pairs as sequences.
pub open spec fn pair_views(v: Seq<(String, Json)>) -> Seq<(Seq<char>, JsonView)> {
    v.map_values(|p: (String, Json)| (p.0@, json_view(p.1)))
}

fn object_with(pairs: &Vec<(String, Json)>, id: Option<u64>) -> (r: Json)
    ensures
        json_view(r) == tagged(pair_views(pairs@), id),
{
    let ghost pv = pair_views(pairs@);
    let mut m: Vec<(String, Json)> = Vec::new();
    proof {
        lemma_members_view(m@);
        assert(members_view(m@) =~= seq![]);
        assert(pv.take(0) =~= Seq::<(Seq<char>, JsonView)>::empty());
    }
    let mut i: usize = 0;
    while i < pairs.len()
        invariant
            i <= pairs@.len(),
            pv == pair_views(pairs@),
            members_view(m@) == object_of(pv.take(i as int)),
        decreases pairs@.len() - i,
    {
        proof {
            assert(pv.take(i + 1).drop_last() =~= pv.take(i as int));
            assert(pv.take(i + 1).last() == pv[i as int]);
        }
        insert_member_into(&mut m, pairs[i].0.clone(), pairs[i].1.copy());
        i = i + 1;
    }
    proof {
        assert(pv.take(pairs@.len() as int) =~= pv);
        lemma_members_view(m@);
    }
    match id {
        Some(x) => {
            insert_member_into(&mut m, "id".to_string(), Json::Number(Number::PosInt(x)));
            Json::Object(m)
        },
        None => Json::Object(m),
    }
}

/// A `log` event at a level (`info`, `ok`, `warn`, `err` or `dbg`).
pub fn log_event(level: &str, message: &str, id: Option<u64>) -> (r: Json)
    ensures
        json_view(r) == log_event_view(level@, message@, id),
{
    let mut pairs: Vec<(String, Json)> = Vec::new();
    pairs.push(("type".to_string(), Json::String("log".to_string())));
    pairs.push(("level".to_string(), Json::String(level.to_string())));
    pairs.push(("message".to_string(), Json::String(message.to_string())));
    let r = object_with(&pairs, id);
    proof {
        assert(pair_views(pairs@)
            =~= seq![("type"@, JsonView::String("log"@)), ("level"@, JsonView::String(level@)), ("message"@, JsonView::String(message@))]);
    }
    r
}

/// The terminal event of a request.
pub fn outcome_event(outcome: Result<Json, PluginError>, id: Option<u64>) -> (r: Json)
    ensures
        json_view(r) == outcome_event_view(match outcome {
            Ok(v) => Ok(json_view(v)),
            Err(e) => Err((e.message@, e.retryable)),
        }, id),
{
    let mut pairs: Vec<(String, Json)> = Vec::new();
    match outcome {
        Ok(v) => {
            let ghost vv = json_view(v);
            pairs.push(("type".to_string(), Json::String("result".to_string())));
            pairs.push(("value".to_string(), v));
            let r = object_with(&pairs, id);
            proof {
                assert(pair_views(pairs@)
                    =~= seq![("type"@, JsonView::String("result"@)), ("value"@, vv)]);
            }
            r
        },
        Err(e) => {
            pairs.push(("type".to_string(), Json::String("error".to_string())));
            pairs.push(("message".to_string(), Json::String(e.message.clone())));
            pairs.push(("retryable".to_string(), Json::Bool(e.retryable)));
            let r = object_with(&pairs, id);
            proof {
                assert(pair_views(pairs@)
                    =~= seq![("type"@, JsonView::String("error"@)), ("message"@, JsonView::String(e.message@)), ("retryable"@, JsonView::Bool(e.retryable))]);
            }
            r
        },
    }
}

/// Collects protocol lines: each event is written as one line of compact
/// JSON.
#[derive(Debug)]
pub struct Emitter {
    pub lines: Vec<String>,
}

impl Emitter {
    /// An emitter that keeps its lines, to be read back.
    pub fn buffer() -> (e: Emitter)
        ensures
            e.lines@.len() == 0,
    {
        Emitter { lines: Vec::new() }
    }

    /// Writes one event as a line.
    pub fn emit(&mut self, event: &Json)
        ensures
            final(self).lines@.len() == old(self).lines@.len() + 1,
            forall|k: int| 0 <= k < old(self).lines@.len() ==> #[trigger] final(self).lines@[k] == old(self).lines@[k],
            final(self).lines@.last()@ == json_text(json_view(*event)),
    {
        self.lines.push(event.to_text());
    }
}

} // verus!
