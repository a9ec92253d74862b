//! Definition-time validation of a flow: id shapes and uniqueness,
//! cron and timezone syntax, bounds of retries, timeouts and concurrency,
//! output extract paths, and that every `{{ ... }}` template parses and
//! only references what exists in its scope.

use vstd::prelude::*;
use crate::expr::{error_text, reference_paths, segments_view, Segment, SegmentView};
use crate::expr::grammar::Failure;
use crate::json::{
    Json, JsonView, items_view, json_view, lemma_items_view, lemma_members_view, members_view,
};
use crate::text::{
    byte_offset, cat2, cat3, cat5, chars_of, decimal, decimal_u64, push_char, push_str, str_eq,
    trim_chars, trimmed,
};
use crate::plugins::PluginCapability;
use crate::scheduler::{cron_error, cron_problem, known_timezone, timezone_known};
use super::flow::{
    FlowDefinition, InputDef, OutputDef, ParallelTask, PluginTask, RetryPolicy, TaskDef, TaskKind,
    TriggerDef, VarDef,
};

verus! {

pub open spec fn is_id_start(c: char) -> bool {
    'a' <= c && c <= 'z'
}

pub open spec fn is_id_char(c: char) -> bool {
    ('a' <= c && c <= 'z') || ('0' <= c && c <= '9') || c == '_'
}

/// The id grammar of every id in a definition: `[a-z][a-z0-9_]*`, at most
/// 64 characters.
pub open spec fn valid_id(s: Seq<char>) -> bool {
    &&& 0 < s.len() <= 64
    &&& is_id_start(s[0])
    &&& forall|k: int| 1 <= k < s.len() ==> is_id_char(#[trigger] s[k])
}

pub fn id_chars_valid(c: &Vec<char>) -> (b: bool)
    ensures
        b == valid_id(c@),
{
    if c.len() == 0 || c.len() > 64 {
        return false;
    }
    let f = c[0];
    if !('a' <= f && f <= 'z') {
        return false;
    }
    let mut k: usize = 1;
    while k < c.len()
        invariant
            1 <= k <= c@.len(),
            forall|j: int| 1 <= j < k ==> is_id_char(#[trigger] c@[j]),
        decreases c@.len() - k,
    {
        let ch = c[k];
        if !(('a' <= ch && ch <= 'z') || ('0' <= ch && ch <= '9') || ch == '_') {
            assert(!is_id_char(c@[k as int]));
            return false;
        }
        k = k + 1;
    }
    true
}

/// Whether `id` follows the id grammar `[a-z][a-z0-9_]*` (at most 64
/// characters).
pub fn is_valid_id(id: &str) -> (b: bool)
    ensures
        b == valid_id(id@),
{
    let c = chars_of(id);
    id_chars_valid(&c)
}

// --------------------------------------------------------------- errors

/// One problem: where in the definition (`tasks[2].config.url`) and what.
#[derive(Debug, Clone, PartialEq, Eq)]
pub struct ValidationErr {
    pub path: String,
    pub message: String,
}

/// A problem as a path and a message.
pub type Problem = (Seq<char>, Seq<char>);

pub open spec fn problems(errs: Seq<ValidationErr>) -> Seq<Problem> {
    errs.map_values(|e: ValidationErr| (e.path@, e.message@))
}

pub open spec fn one(path: Seq<char>, message: Seq<char>) -> Seq<Problem> {
    seq![(path, message)]
}

pub fn push(errs: &mut Vec<ValidationErr>, path: String, message: String)
    ensures
        problems(final(errs)@) == problems(old(errs)@) + one(path@, message@),
{
    errs.push(ValidationErr { path, message });
    proof {
        assert(problems(final(errs)@) =~= problems(old(errs)@) + one(path@, message@));
    }
}

pub open spec fn id_problems(id: Seq<char>, path: Seq<char>) -> Seq<Problem> {
    if valid_id(id) {
        Seq::empty()
    } else {
        one(path, "invalid id `"@ + id + "`: must match [a-z][a-z0-9_]* (max 64 chars)"@)
    }
}

pub fn check_id(id: &str, path: &str, errs: &mut Vec<ValidationErr>)
    ensures
        problems(final(errs)@) == problems(old(errs)@) + id_problems(id@, path@),
{
    if !is_valid_id(id) {
        let message = cat3("invalid id `", id, "`: must match [a-z][a-z0-9_]* (max 64 chars)");
        push(errs, path.to_owned(), message);
    } else {
        assert(problems(errs@) =~= problems(errs@) + Seq::<Problem>::empty());
    }
}

// ------------------------------------------------------------ references

/// Index of the first `c` at or after `i`, or the length.
pub open spec fn index_of(s: Seq<char>, c: char, i: int) -> int
    decreases s.len() - i,
{
    if 0 <= i < s.len() && s[i] != c {
        index_of(s, c, i + 1)
    } else {
        i
    }
}

pub proof fn lemma_index_of(s: Seq<char>, c: char, i: int)
    requires
        0 <= i <= s.len(),
    ensures
        i <= index_of(s, c, i) <= s.len(),
        index_of(s, c, i) < s.len() ==> s[index_of(s, c, i)] == c,
        forall|k: int| i <= k < index_of(s, c, i) ==> #[trigger] s[k] != c,
    decreases s.len() - i,
{
    if i < s.len() && s[i] != c {
        lemma_index_of(s, c, i + 1);
    }
}

/// The pieces of `s` from `i` on between dots (`str::split('.')`).
pub open spec fn split_dots_from(s: Seq<char>, i: int) -> Seq<Seq<char>>
    decreases s.len() - i,
{
    let e = index_of(s, '.', i);
    if i < 0 || i > s.len() {
        Seq::empty()
    } else if e >= s.len() || e < i {
        seq![s.subrange(i, s.len() as int)]
    } else {
        proof {
            lemma_index_of(s, '.', i);
        }
        seq![s.subrange(i, e)] + split_dots_from(s, e + 1)
    }
}

/// A path piece without its `[n]` indices.
pub open spec fn before_bracket(p: Seq<char>) -> Seq<char> {
    p.subrange(0, index_of(p, '[', 0))
}

/// The names along a canonical path, indices dropped
/// (`outputs.a.ids[0].x` has `outputs`, `a`, `ids`, `x`).
pub open spec fn path_names(path: Seq<char>) -> Seq<Seq<char>> {
    split_dots_from(path, 0).map_values(|p: Seq<char>| before_bracket(p))
}

fn piece(c: &Vec<char>, a: usize, b: usize) -> (r: String)
    requires
        a <= b <= c@.len(),
    ensures
        r@ == before_bracket(c@.subrange(a as int, b as int)),
{
    let ghost p = c@.subrange(a as int, b as int);
    proof {
        lemma_index_of(p, '[', 0);
    }
    let mut e = a;
    while e < b && c[e] != '['
        invariant
            a <= e <= b <= c@.len(),
            p == c@.subrange(a as int, b as int),
            index_of(p, '[', e - a) == index_of(p, '[', 0),
        decreases b - e,
    {
        proof {
            assert(p[e - a] == c@[e as int]);
        }
        e = e + 1;
    }
    proof {
        if e < b {
            assert(p[e - a] == c@[e as int]);
        }
        assert(p.subrange(0, e - a) =~= c@.subrange(a as int, e as int));
    }
    crate::expr::parse::collect(c.as_slice(), a, e)
}

/// The names along a path, indices dropped.
pub fn path_segments(path: &str) -> (r: Vec<String>)
    ensures
        r@.map_values(|s: String| s@) == path_names(path@),
        r@.len() >= 1,
{
    let c = chars_of(path);
    let ghost s = c@;
    let mut out: Vec<String> = Vec::new();
    let mut i: usize = 0;
    proof {
        assert(out@.map_values(|x: String| x@) + split_dots_from(s, 0).map_values(|p: Seq<char>| before_bracket(p))
            =~= path_names(path@));
    }
    loop
        invariant
            s == c@,
            s == path@,
            i <= s.len(),
            out@.map_values(|x: String| x@) + split_dots_from(s, i as int).map_values(
                |p: Seq<char>| before_bracket(p),
            ) == path_names(path@),
        decreases s.len() - i,
    {
        proof {
            lemma_index_of(s, '.', i as int);
        }
        let mut e = i;
        while e < c.len() && c[e] != '.'
            invariant
                i <= e <= s.len(),
                s == c@,
                index_of(s, '.', e as int) == index_of(s, '.', i as int),
            decreases s.len() - e,
        {
            e = e + 1;
        }
        let name = piece(&c, i, e);
        let ghost before = out@.map_values(|x: String| x@);
        out.push(name);
        proof {
            assert(out@.map_values(|x: String| x@) =~= before.push(name@));
        }
        if e >= c.len() {
            proof {
                assert(split_dots_from(s, i as int) =~= seq![s.subrange(i as int, s.len() as int)]);
                assert(out@.map_values(|x: String| x@) =~= before + split_dots_from(s, i as int).map_values(
                    |p: Seq<char>| before_bracket(p),
                ));
            }
            return out;
        }
        proof {
            let rest = split_dots_from(s, e + 1);
            assert(split_dots_from(s, i as int) =~= seq![s.subrange(i as int, e as int)] + rest);
            assert(split_dots_from(s, i as int).map_values(|p: Seq<char>| before_bracket(p))
                =~= seq![before_bracket(s.subrange(i as int, e as int))] + rest.map_values(
                |p: Seq<char>| before_bracket(p),
            ));
            assert(out@.map_values(|x: String| x@) + rest.map_values(|p: Seq<char>| before_bracket(p))
                =~= before + split_dots_from(s, i as int).map_values(|p: Seq<char>| before_bracket(p)));
        }
        i = e + 1;
    }
}

// ----------------------------------------------------------------- scope

/// What templates may reference at one point of a flow.
pub struct Scope<'a> {
    /// Ids of the declared inputs.
    pub inputs: &'a Vec<String>,
    /// Ids of the declared variables.
    pub vars: &'a Vec<String>,
    /// Tasks finished earlier in scope with their output names; a later
    /// entry for the same task replaces an earlier one.
    pub outputs: &'a Vec<(String, Vec<String>)>,
    /// `{{ taskrun.* }}` exists only inside children of a parallel task.
    pub taskrun_allowed: bool,
}

/// What a [`Scope`] allows.
pub struct ScopeView {
    pub inputs: Seq<Seq<char>>,
    pub vars: Seq<Seq<char>>,
    pub outputs: Seq<(Seq<char>, Seq<Seq<char>>)>,
    pub taskrun_allowed: bool,
}

pub open spec fn names(v: Seq<String>) -> Seq<Seq<char>> {
    v.map_values(|s: String| s@)
}

pub open spec fn entries(v: Seq<(String, Vec<String>)>) -> Seq<(Seq<char>, Seq<Seq<char>>)> {
    v.map_values(|e: (String, Vec<String>)| (e.0@, names(e.1@)))
}

impl<'a> Scope<'a> {
    pub open spec fn view(&self) -> ScopeView {
        ScopeView {
            inputs: names(self.inputs@),
            vars: names(self.vars@),
            outputs: entries(self.outputs@),
            taskrun_allowed: self.taskrun_allowed,
        }
    }
}

/// The output names of the latest entry for `task`.
pub open spec fn outputs_of(outputs: Seq<(Seq<char>, Seq<Seq<char>>)>, task: Seq<char>) -> Option<Seq<Seq<char>>>
    decreases outputs.len(),
{
    if outputs.len() == 0 {
        None
    } else if outputs.last().0 == task {
        Some(outputs.last().1)
    } else {
        outputs_of(outputs.drop_last(), task)
    }
}

pub fn contains_name(v: &Vec<String>, s: &str) -> (b: bool)
    ensures
        b == names(v@).contains(s@),
{
    let mut i: usize = 0;
    while i < v.len()
        invariant
            i <= v@.len(),
            forall|k: int| 0 <= k < i ==> #[trigger] names(v@)[k] != s@,
        decreases v@.len() - i,
    {
        if str_eq(v[i].as_str(), s) {
            assert(names(v@)[i as int] == s@);
            return true;
        }
        i = i + 1;
    }
    false
}

fn find_outputs(outputs: &Vec<(String, Vec<String>)>, task: &str) -> (r: Option<usize>)
    ensures
        match r {
            Some(k) => k < outputs@.len() && outputs_of(entries(outputs@), task@) == Some(names(outputs@[k as int].1@)),
            None => outputs_of(entries(outputs@), task@) is None,
        },
{
    let mut i: usize = outputs.len();
    proof {
        assert(entries(outputs@).take(i as int) =~= entries(outputs@));
    }
    while i > 0
        invariant
            i <= outputs@.len(),
            outputs_of(entries(outputs@), task@) == outputs_of(entries(outputs@).take(i as int), task@),
        decreases i,
    {
        let ghost pre = entries(outputs@).take(i as int);
        proof {
            assert(pre.drop_last() =~= entries(outputs@).take(i - 1));
        }
        if str_eq(outputs[i - 1].0.as_str(), task) {
            return Some(i - 1);
        }
        i = i - 1;
    }
    None
}

/// What is wrong with one canonical reference path at `at`, in `scope`.
pub open spec fn ref_problems(r: Seq<char>, at: Seq<char>, scope: ScopeView) -> Seq<Problem> {
    let segs = path_names(r);
    let root = segs[0];
    if root == "inputs"@ {
        if segs.len() < 2 {
            one(at, "incomplete reference `"@ + r + "`: expected `inputs.<id>`"@)
        } else if !scope.inputs.contains(segs[1]) {
            one(at, "unknown input `"@ + segs[1] + "` in `"@ + r + "`"@)
        } else {
            Seq::empty()
        }
    } else if root == "vars"@ {
        if segs.len() < 2 {
            one(at, "incomplete reference `"@ + r + "`: expected `vars.<id>`"@)
        } else if !scope.vars.contains(segs[1]) {
            one(at, "unknown variable `"@ + segs[1] + "` in `"@ + r + "`"@)
        } else {
            Seq::empty()
        }
    } else if root == "secrets"@ {
        if segs.len() < 2 {
            one(at, "incomplete reference `"@ + r + "`: expected `secrets.<NAME>`"@)
        } else {
            Seq::empty()
        }
    } else if root == "outputs"@ {
        if segs.len() < 3 {
            one(at, "output references must be `outputs.<task>.<name>`, got `"@ + r + "`"@)
        } else {
            match outputs_of(scope.outputs, segs[1]) {
                None => one(
                    at,
                    "`"@ + r + "` references task `"@ + segs[1] + "` which is not an earlier task in scope"@,
                ),
                Some(declared) => if !declared.contains(segs[2]) {
                    one(at, "task `"@ + segs[1] + "` has no declared output `"@ + segs[2] + "`"@)
                } else {
                    Seq::empty()
                },
            }
        }
    } else if root == "taskrun"@ {
        if !scope.taskrun_allowed {
            one(
                at,
                "`"@ + r + "` is invalid here: taskrun is only available inside parallel child tasks"@,
            )
        } else if segs.len() < 2 {
            one(at, "incomplete reference `"@ + r + "`: expected `taskrun.value`"@)
        } else if segs[1] != "value"@ {
            one(at, "unknown taskrun field `"@ + segs[1] + "` in `"@ + r + "`: expected `taskrun.value`"@)
        } else {
            Seq::empty()
        }
    } else {
        one(at, "unknown reference root `"@ + root + "` in `"@ + r + "`"@)
    }
}

fn no_problem(errs: &Vec<ValidationErr>)
    ensures
        problems(errs@) == problems(errs@) + Seq::<Problem>::empty(),
{
    assert(problems(errs@) =~= problems(errs@) + Seq::<Problem>::empty());
}

/// Checks one canonical reference path against the scope.
#[verifier::spinoff_prover]
pub fn check_ref(ref_path: &str, err_path: &str, scope: &Scope, errs: &mut Vec<ValidationErr>)
    ensures
        problems(final(errs)@) == problems(old(errs)@) + ref_problems(ref_path@, err_path@, scope.view()),
{
    let segs = path_segments(ref_path);
    let ghost sv = segs@.map_values(|s: String| s@);
    proof {
        assert(sv.len() == segs@.len());
        assert(sv == path_names(ref_path@));
        assert(sv[0] == segs@[0]@);
        if segs@.len() >= 2 {
            assert(sv[1] == segs@[1]@);
        }
        if segs@.len() >= 3 {
            assert(sv[2] == segs@[2]@);
        }
    }
    let root = segs[0].as_str();
    let at = err_path.to_owned();
    if str_eq(root, "inputs") {
        if segs.len() < 2 {
            push(errs, at, cat3("incomplete reference `", ref_path, "`: expected `inputs.<id>`"));
        } else if !contains_name(scope.inputs, segs[1].as_str()) {
            push(errs, at, cat5("unknown input `", segs[1].as_str(), "` in `", ref_path, "`"));
        } else {
            no_problem(errs);
        }
    } else if str_eq(root, "vars") {
        if segs.len() < 2 {
            push(errs, at, cat3("incomplete reference `", ref_path, "`: expected `vars.<id>`"));
        } else if !contains_name(scope.vars, segs[1].as_str()) {
            push(errs, at, cat5("unknown variable `", segs[1].as_str(), "` in `", ref_path, "`"));
        } else {
            no_problem(errs);
        }
    } else if str_eq(root, "secrets") {
        if segs.len() < 2 {
            push(errs, at, cat3("incomplete reference `", ref_path, "`: expected `secrets.<NAME>`"));
        } else {
            no_problem(errs);
        }
    } else if str_eq(root, "outputs") {
        if segs.len() < 3 {
            push(errs, at, cat3("output references must be `outputs.<task>.<name>`, got `", ref_path, "`"));
        } else {
            match find_outputs(scope.outputs, segs[1].as_str()) {
                None => {
                    let mut m = cat3("`", ref_path, "` references task `");
                    push_str(&mut m, segs[1].as_str());
                    push_str(&mut m, "` which is not an earlier task in scope");
                    push(errs, at, m);
                },
                Some(k) => {
                    if !contains_name(&scope.outputs[k].1, segs[2].as_str()) {
                        let m = cat5("task `", segs[1].as_str(), "` has no declared output `", segs[2].as_str(), "`");
                        push(errs, at, m);
                    } else {
                        no_problem(errs);
                    }
                },
            }
        }
    } else if str_eq(root, "taskrun") {
        if !scope.taskrun_allowed {
            push(errs, at, cat3("`", ref_path, "` is invalid here: taskrun is only available inside parallel child tasks"));
        } else if segs.len() < 2 {
            push(errs, at, cat3("incomplete reference `", ref_path, "`: expected `taskrun.value`"));
        } else if !str_eq(segs[1].as_str(), "value") {
            let m = cat5("unknown taskrun field `", segs[1].as_str(), "` in `", ref_path, "`: expected `taskrun.value`");
            push(errs, at, m);
        } else {
            no_problem(errs);
        }
    } else {
        push(errs, at, cat5("unknown reference root `", root, "` in `", ref_path, "`"));
    }
}

// ------------------------------------------------------------- templates

/// The problems of each reference, in order.
pub open spec fn refs_problems(refs: Seq<Seq<char>>, at: Seq<char>, scope: ScopeView) -> Seq<Problem>
    decreases refs.len(),
{
    if refs.len() == 0 {
        Seq::empty()
    } else {
        refs_problems(refs.drop_last(), at, scope) + ref_problems(refs.last(), at, scope)
    }
}

/// What is wrong with a template at `at`: that it does not parse, or what
/// its references name.
pub open spec fn template_problems(t: Seq<char>, at: Seq<char>, scope: ScopeView) -> Seq<Problem> {
    match crate::expr::grammar::template(t) {
        Err(f) => one(at, "invalid template: "@ + error_text(f.message, Some(byte_offset(t, f.pos) as nat))),
        Ok(segs) => refs_problems(reference_paths(segs), at, scope),
    }
}

/// Parses a template and checks every reference in it against the scope.
#[verifier::spinoff_prover]
pub fn check_template(template: &str, path: &str, scope: &Scope, errs: &mut Vec<ValidationErr>)
    ensures
        problems(final(errs)@) == problems(old(errs)@) + template_problems(template@, path@, scope.view()),
{
    match crate::expr::referenced_paths(template) {
        Err(e) => {
            let text = e.to_string();
            push(errs, path.to_owned(), cat2("invalid template: ", text.as_str()));
        },
        Ok(refs) => {
            let ghost rv = refs@.map_values(|p: String| p@);
            let ghost start = problems(errs@);
            let mut i: usize = 0;
            proof {
                assert(rv.take(0) =~= Seq::<Seq<char>>::empty());
                assert(start + refs_problems(rv.take(0), path@, scope.view()) =~= start);
            }
            while i < refs.len()
                invariant
                    i <= refs@.len(),
                    rv == refs@.map_values(|p: String| p@),
                    problems(errs@) == start + refs_problems(rv.take(i as int), path@, scope.view()),
                decreases refs@.len() - i,
            {
                proof {
                    assert(rv.take(i as int + 1).drop_last() =~= rv.take(i as int));
                    assert(rv[i as int] == refs@[i as int]@);
                }
                check_ref(refs[i].as_str(), path, scope, errs);
                i = i + 1;
                proof {
                    assert(problems(errs@) =~= start + refs_problems(rv.take(i as int), path@, scope.view()));
                }
            }
            proof {
                assert(rv.take(i as int) =~= rv);
            }
        },
    }
}

/// `at[i]`
pub open spec fn indexed(at: Seq<char>, i: int) -> Seq<char> {
    at + seq!['['] + decimal(i as nat) + seq![']']
}

fn indexed_path(at: &str, i: usize) -> (r: String)
    ensures
        r@ == indexed(at@, i as int),
{
    let mut r = at.to_owned();
    push_char(&mut r, '[');
    let d = decimal_u64(i as u64);
    push_str(&mut r, d.as_str());
    push_char(&mut r, ']');
    proof {
        assert(r@ =~= indexed(at@, i as int));
    }
    r
}

/// What is wrong with the templates inside a config: every string in it is
/// a template, checked at its path.
pub open spec fn config_problems(v: JsonView, at: Seq<char>, scope: ScopeView) -> Seq<Problem>
    decreases v, 0int,
{
    match v {
        JsonView::String(t) => template_problems(t, at, scope),
        JsonView::Array(items) => items_problems(items, at, scope),
        JsonView::Object(members) => members_problems(members, at, scope),
        _ => Seq::empty(),
    }
}

pub open spec fn items_problems(items: Seq<JsonView>, at: Seq<char>, scope: ScopeView) -> Seq<Problem>
    decreases items, 1int,
{
    if items.len() == 0 {
        Seq::empty()
    } else {
        items_problems(items.drop_last(), at, scope)
            + config_problems(items.last(), indexed(at, items.len() - 1), scope)
    }
}

pub open spec fn members_problems(
    members: Seq<(Seq<char>, JsonView)>,
    at: Seq<char>,
    scope: ScopeView,
) -> Seq<Problem>
    decreases members, 1int,
{
    if members.len() == 0 {
        Seq::empty()
    } else {
        members_problems(members.drop_last(), at, scope)
            + config_problems(members.last().1, at + seq!['.'] + members.last().0, scope)
    }
}

/// Walks a config, checking every string in it as a template.
#[verifier::spinoff_prover]
pub fn walk_config(value: &Json, path: &str, scope: &Scope, errs: &mut Vec<ValidationErr>)
    ensures
        problems(final(errs)@) == problems(old(errs)@) + config_problems(json_view(*value), path@, scope.view()),
    decreases value,
{
    let ghost start = problems(errs@);
    match value {
        Json::String(t) => check_template(t.as_str(), path, scope, errs),
        Json::Array(items) => {
            let mut i: usize = 0;
            proof {
                lemma_items_view(items@);
                assert(items_view(items@).take(0) =~= Seq::<JsonView>::empty());
                assert(start + items_problems(Seq::<JsonView>::empty(), path@, scope.view()) =~= start);
            }
            while i < items.len()
                invariant
                    *value is Array,
                    value->Array_0 == *items,
                    i <= items@.len(),
                    items_view(items@).len() == items@.len(),
                    forall|k: int| 0 <= k < items@.len() ==> #[trigger] items_view(items@)[k] == json_view(items@[k]),
                    problems(errs@) == start + items_problems(items_view(items@).take(i as int), path@, scope.view()),
                decreases items@.len() - i,
            {
                let ghost vs = items_view(items@);
                proof {
                    assert(vs.take(i as int + 1).drop_last() =~= vs.take(i as int));
                    assert(vs.take(i as int + 1).last() == json_view(items@[i as int]));
                    assert(decreases_to!(*value => value->Array_0));
                    assert(decreases_to!(*items => items@));
                    assert(decreases_to!(items@ => items@[i as int]));
                }
                let p = indexed_path(path, i);
                walk_config(&items[i], p.as_str(), scope, errs);
                i = i + 1;
                proof {
                    assert(problems(errs@) =~= start + items_problems(vs.take(i as int), path@, scope.view()));
                }
            }
            proof {
                assert(items_view(items@).take(i as int) =~= items_view(items@));
            }
        },
        Json::Object(members) => {
            let mut i: usize = 0;
            proof {
                lemma_members_view(members@);
                assert(members_view(members@).take(0) =~= Seq::<(Seq<char>, JsonView)>::empty());
                assert(start + members_problems(Seq::<(Seq<char>, JsonView)>::empty(), path@, scope.view()) =~= start);
            }
            while i < members.len()
                invariant
                    *value is Object,
                    value->Object_0 == *members,
                    i <= members@.len(),
                    members_view(members@).len() == members@.len(),
                    forall|k: int| 0 <= k < members@.len() ==> #[trigger] members_view(members@)[k] == (
                        members@[k].0@,
                        json_view(members@[k].1),
                    ),
                    problems(errs@) == start + members_problems(
                        members_view(members@).take(i as int),
                        path@,
                        scope.view(),
                    ),
                decreases members@.len() - i,
            {
                let ghost vs = members_view(members@);
                proof {
                    assert(vs.take(i as int + 1).drop_last() =~= vs.take(i as int));
                    assert(vs.take(i as int + 1).last() == vs[i as int]);
                    assert(decreases_to!(*value => value->Object_0));
                    assert(decreases_to!(*members => members@));
                    assert(decreases_to!(members@ => members@[i as int]));
                    assert(decreases_to!(members@[i as int] => members@[i as int].1));
                }
                let mut p = path.to_owned();
                push_char(&mut p, '.');
                push_str(&mut p, members[i].0.as_str());
                proof {
                    assert(p@ =~= path@ + seq!['.'] + members@[i as int].0@);
                    assert(vs[i as int] == (members@[i as int].0@, json_view(members@[i as int].1)));
                }
                walk_config(&members[i].1, p.as_str(), scope, errs);
                i = i + 1;
                proof {
                    assert(problems(errs@) =~= start + members_problems(vs.take(i as int), path@, scope.view()));
                }
            }
            proof {
                assert(members_view(members@).take(i as int) =~= members_view(members@));
            }
        },
        _ => {
            no_problem(errs);
        },
    }
}

// --------------------------------------------------------------- outputs

pub open spec fn output_names(outs: Seq<OutputDef>) -> Seq<Seq<char>> {
    outs.map_values(|o: OutputDef| o.name@)
}

pub open spec fn output_path(base: Seq<char>, k: int, field: Seq<char>) -> Seq<char> {
    indexed(base + ".outputs"@, k) + field
}

/// What is wrong with an extract path at `at`: it must be one canonical
/// path, without filters, starting with `result`.
pub open spec fn extract_problems(x: Seq<char>, at: Seq<char>) -> Seq<Problem> {
    if trimmed(x).len() == 0 {
        one(at, "extract must not be empty"@)
    } else {
        match crate::expr::grammar::template("{{ "@ + x + " }}"@) {
            Err(f) => one(at, "invalid extract path: "@ + f.message),
            Ok(segs) => if segs.len() == 1 && segs[0] is Ref && segs[0]->Ref_0.filters.len() == 0 {
                if path_names(segs[0]->Ref_0.path)[0] != "result"@ {
                    one(at, "extract must start with `result`, got `"@ + segs[0]->Ref_0.path + "`"@)
                } else {
                    Seq::empty()
                }
            } else {
                one(at, "extract must be a single dotted path without filters"@)
            },
        }
    }
}

/// What is wrong with the `k`th output of a task at `base`.
pub open spec fn output_problems(outs: Seq<OutputDef>, k: int, base: Seq<char>) -> Seq<Problem> {
    let o = outs[k];
    let np = output_path(base, k, ".name"@);
    (if valid_id(o.name@) {
        Seq::empty()
    } else {
        one(np, "invalid output name `"@ + o.name@ + "`: must match [a-z][a-z0-9_]* (max 64 chars)"@)
    }) + (if output_names(outs.take(k)).contains(o.name@) {
        one(np, "duplicate output name `"@ + o.name@ + "`"@)
    } else {
        Seq::empty()
    }) + extract_problems(o.extract@, output_path(base, k, ".extract"@))
}

pub open spec fn outputs_problems_from(outs: Seq<OutputDef>, k: int, base: Seq<char>) -> Seq<Problem>
    decreases outs.len() - k,
{
    if k < 0 || k >= outs.len() {
        Seq::empty()
    } else {
        output_problems(outs, k, base) + outputs_problems_from(outs, k + 1, base)
    }
}

fn output_field_path(base: &str, k: usize, field: &str) -> (r: String)
    ensures
        r@ == output_path(base@, k as int, field@),
{
    let b = cat2(base, ".outputs");
    let mut r = indexed_path(b.as_str(), k);
    push_str(&mut r, field);
    r
}

fn check_extract(extract: &str, at: String, errs: &mut Vec<ValidationErr>)
    ensures
        problems(final(errs)@) == problems(old(errs)@) + extract_problems(extract@, at@),
{
    let t = trim_chars(extract);
    if t.len() == 0 {
        push(errs, at, "extract must not be empty".to_owned());
        return;
    }
    let text = cat3("{{ ", extract, " }}");
    match crate::expr::parse(text.as_str()) {
        Err(e) => {
            push(errs, at, cat2("invalid extract path: ", e.message.as_str()));
        },
        Ok(segments) => {
            let ghost sv = segments_view(segments@);
            proof {
                if segments@.len() > 0 {
                    assert(sv[0] == segments@[0]@);
                }
            }
            if segments.len() == 1 {
                if let Segment::Ref(re) = &segments[0] {
                    if re.filters.len() == 0 {
                        let names = path_segments(re.path.as_str());
                        proof {
                            assert(names@.map_values(|s: String| s@)[0] == names@[0]@);
                        }
                        if !str_eq(names[0].as_str(), "result") {
                            push(errs, at, cat3("extract must start with `result`, got `", re.path.as_str(), "`"));
                        } else {
                            no_problem(errs);
                        }
                        return;
                    }
                }
            }
            push(errs, at, "extract must be a single dotted path without filters".to_owned());
        },
    }
}

pub fn contains_output_name(outs: &Vec<OutputDef>, upto: usize, name: &str) -> (b: bool)
    requires
        upto <= outs@.len(),
    ensures
        b == output_names(outs@.take(upto as int)).contains(name@),
{
    let mut i: usize = 0;
    while i < upto
        invariant
            i <= upto <= outs@.len(),
            forall|k: int| 0 <= k < i ==> #[trigger] output_names(outs@.take(upto as int))[k] != name@,
        decreases upto - i,
    {
        if str_eq(outs[i].name.as_str(), name) {
            assert(output_names(outs@.take(upto as int))[i as int] == name@);
            return true;
        }
        i = i + 1;
    }
    false
}

/// Checks the outputs of a task at `base`: names, their uniqueness, and
/// extract paths.
pub fn validate_outputs(outputs: &Vec<OutputDef>, base: &str, errs: &mut Vec<ValidationErr>)
    ensures
        problems(final(errs)@) == problems(old(errs)@) + outputs_problems_from(outputs@, 0, base@),
{
    let ghost start = problems(errs@);
    let mut k: usize = 0;
    proof {
        assert(start + outputs_problems_from(outputs@, 0, base@) =~= start + outputs_problems_from(outputs@, 0, base@));
    }
    while k < outputs.len()
        invariant
            k <= outputs@.len(),
            problems(errs@) + outputs_problems_from(outputs@, k as int, base@) == start + outputs_problems_from(
                outputs@,
                0,
                base@,
            ),
        decreases outputs@.len() - k,
    {
        let ghost before = problems(errs@);
        let o = &outputs[k];
        let np = output_field_path(base, k, ".name");
        if !is_valid_id(o.name.as_str()) {
            push(errs, np.clone(), cat3("invalid output name `", o.name.as_str(), "`: must match [a-z][a-z0-9_]* (max 64 chars)"));
        }
        let ghost mid = problems(errs@);
        if contains_output_name(outputs, k, o.name.as_str()) {
            push(errs, np, cat3("duplicate output name `", o.name.as_str(), "`"));
        }
        let ghost mid2 = problems(errs@);
        let ep = output_field_path(base, k, ".extract");
        check_extract(o.extract.as_str(), ep, errs);
        proof {
            assert(problems(errs@) =~= before + output_problems(outputs@, k as int, base@));
        }
        k = k + 1;
    }
    proof {
        assert(outputs_problems_from(outputs@, k as int, base@) =~= Seq::<Problem>::empty());
        assert(problems(errs@) + Seq::<Problem>::empty() =~= problems(errs@));
    }
}

// ------------------------------------------------------------ task ids

pub open spec fn register_problems(id: Seq<char>, path: Seq<char>, ids: Seq<Seq<char>>) -> Seq<Problem> {
    id_problems(id, path) + if ids.contains(id) {
        one(path, "duplicate task id `"@ + id + "`"@)
    } else {
        Seq::empty()
    }
}

/// Checks a task id and that no task before it has the same one.
pub fn register_task_id(id: &str, path: &str, task_ids: &mut Vec<String>, errs: &mut Vec<ValidationErr>)
    ensures
        problems(final(errs)@) == problems(old(errs)@) + register_problems(id@, path@, names(old(task_ids)@)),
        names(final(task_ids)@) == names(old(task_ids)@).push(id@),
{
    let ghost start = problems(errs@);
    check_id(id, path, errs);
    let ghost mid = problems(errs@);
    if contains_name(task_ids, id) {
        push(errs, path.to_owned(), cat3("duplicate task id `", id, "`"));
    }
    proof {
        assert(problems(errs@) =~= start + register_problems(id@, path@, names(old(task_ids)@)));
    }
    task_ids.push(id.to_owned());
    proof {
        assert(names(task_ids@) =~= names(old(task_ids)@).push(id@));
    }
}

// ---------------------------------------------------------- plugin tasks

/// What the plugin registry says of one plugin task: whether its type is
/// registered, and the problems the plugin finds in its config.
#[derive(Debug, Clone)]
pub struct PluginCheck {
    pub known: bool,
    pub problems: Vec<String>,
}

pub open spec fn messages_at(ms: Seq<String>, at: Seq<char>) -> Seq<Problem> {
    ms.map_values(|m: String| (at, m@))
}

pub open spec fn retry_problems(r: RetryPolicy, base: Seq<char>) -> Seq<Problem> {
    (if r.retry_type@ != "exponential"@ {
        one(base + ".retry.type"@, "retry type must be `exponential`, got `"@ + r.retry_type@ + "`"@)
    } else {
        Seq::empty()
    }) + (if !(1 <= r.max_attempts <= 20) {
        one(
            base + ".retry.max_attempts"@,
            "max_attempts must be between 1 and 20, got "@ + decimal(r.max_attempts as nat),
        )
    } else {
        Seq::empty()
    }) + (if !(1 <= r.base_seconds <= 3600) {
        one(
            base + ".retry.base_seconds"@,
            "base_seconds must be between 1 and 3600, got "@ + decimal(r.base_seconds as nat),
        )
    } else {
        Seq::empty()
    })
}

/// What is wrong with a plugin task at `base`, in `scope`, given what the
/// registry says of it.
pub open spec fn plugin_task_problems(p: PluginTask, base: Seq<char>, scope: ScopeView, check: PluginCheck) -> Seq<Problem> {
    (if !check.known {
        one(base + ".type"@, "unknown task type `"@ + p.type_id@ + "`"@)
    } else {
        messages_at(check.problems@, base + ".config"@)
    }) + (match p.retry {
        Some(r) => retry_problems(r, base),
        None => Seq::empty(),
    }) + (match p.timeout_seconds {
        Some(t) => if !(1 <= t <= 3600) {
            one(
                base + ".timeout_seconds"@,
                "timeout_seconds must be between 1 and 3600, got "@ + decimal(t as nat),
            )
        } else {
            Seq::empty()
        },
        None => Seq::empty(),
    }) + config_problems(json_view(p.config), base + ".config"@, scope) + outputs_problems_from(
        p.outputs@,
        0,
        base,
    )
}

fn check_retry(r: &RetryPolicy, base: &str, errs: &mut Vec<ValidationErr>)
    ensures
        problems(final(errs)@) == problems(old(errs)@) + retry_problems(*r, base@),
{
    let ghost start = problems(errs@);
    if !str_eq(r.retry_type.as_str(), "exponential") {
        push(errs, cat2(base, ".retry.type"), cat3("retry type must be `exponential`, got `", r.retry_type.as_str(), "`"));
    }
    let ghost a = problems(errs@);
    if !(1 <= r.max_attempts && r.max_attempts <= 20) {
        let n = decimal_u64(r.max_attempts as u64);
        push(errs, cat2(base, ".retry.max_attempts"), cat2("max_attempts must be between 1 and 20, got ", n.as_str()));
    }
    let ghost b = problems(errs@);
    if !(1 <= r.base_seconds && r.base_seconds <= 3600) {
        let n = decimal_u64(r.base_seconds);
        push(errs, cat2(base, ".retry.base_seconds"), cat2("base_seconds must be between 1 and 3600, got ", n.as_str()));
    }
    proof {
        assert(problems(errs@) =~= start + retry_problems(*r, base@));
    }
}

/// Checks a plugin task: its type and config (as the registry found
/// them), retry policy, timeout, templates in its config, and outputs.
#[verifier::spinoff_prover]
#[verifier::rlimit(40)]
pub fn validate_plugin_task(
    p: &PluginTask,
    base: &str,
    scope: &Scope,
    check: &PluginCheck,
    errs: &mut Vec<ValidationErr>,
)
    ensures
        problems(final(errs)@) == problems(old(errs)@) + plugin_task_problems(*p, base@, scope.view(), *check),
{
    let ghost start = problems(errs@);
    if !check.known {
        push(errs, cat2(base, ".type"), cat3("unknown task type `", p.type_id.as_str(), "`"));
    } else {
        let at = cat2(base, ".config");
        let mut i: usize = 0;
        while i < check.problems.len()
            invariant
                i <= check.problems@.len(),
                at@ == base@ + ".config"@,
                problems(errs@) == start + messages_at(check.problems@.take(i as int), at@),
            decreases check.problems@.len() - i,
        {
            let ghost before = problems(errs@);
            push(errs, at.clone(), check.problems[i].clone());
            proof {
                assert(messages_at(check.problems@.take(i as int + 1), at@) =~= messages_at(check.problems@.take(i as int), at@).push((at@, check.problems@[i as int]@)));
            }
            i = i + 1;
        }
        proof {
            assert(check.problems@.take(i as int) =~= check.problems@);
        }
    }
    let ghost a = problems(errs@);
    match &p.retry {
        Some(r) => check_retry(r, base, errs),
        None => no_problem(errs),
    }
    let ghost b = problems(errs@);
    match p.timeout_seconds {
        Some(t) => {
            if !(1 <= t && t <= 3600) {
                let n = decimal_u64(t);
                push(errs, cat2(base, ".timeout_seconds"), cat2("timeout_seconds must be between 1 and 3600, got ", n.as_str()));
            } else {
                no_problem(errs);
            }
        },
        None => no_problem(errs),
    }
    let ghost c = problems(errs@);
    let at = cat2(base, ".config");
    walk_config(&p.config, at.as_str(), scope, errs);
    let ghost d = problems(errs@);
    validate_outputs(&p.outputs, base, errs);
    proof {
        assert(problems(errs@) =~= start + plugin_task_problems(*p, base@, scope.view(), *check));
    }
}

// ------------------------------------------------------------ task lists

/// How many of the tasks from `j` on are plugin tasks.
pub open spec fn plugins_from(ts: Seq<TaskDef>, j: int) -> int
    decreases ts.len() - j,
{
    if j < 0 || j >= ts.len() {
        0
    } else {
        (if ts[j].kind is Plugin { 1int } else { 0int }) + plugins_from(ts, j + 1)
    }
}

pub proof fn lemma_plugins_from_nonneg(ts: Seq<TaskDef>, j: int)
    ensures
        plugins_from(ts, j) >= 0,
    decreases ts.len() - j,
{
    if 0 <= j < ts.len() {
        lemma_plugins_from_nonneg(ts, j + 1);
    }
}

/// `ids` with the ids of the tasks from `j` on added.
pub open spec fn ids_after(ts: Seq<TaskDef>, j: int, ids: Seq<Seq<char>>) -> Seq<Seq<char>>
    decreases ts.len() - j,
{
    if j < 0 || j >= ts.len() {
        ids
    } else {
        ids_after(ts, j + 1, ids.push(ts[j].id@))
    }
}

pub open spec fn scope_view(
    inputs: Seq<Seq<char>>,
    vars: Seq<Seq<char>>,
    outputs: Seq<(Seq<char>, Seq<Seq<char>>)>,
    taskrun_allowed: bool,
) -> ScopeView {
    ScopeView { inputs, vars, outputs, taskrun_allowed }
}

/// The children of a parallel task at `base`, from the `j`th on: each
/// sees the parent's scope, the outputs of earlier siblings, and `taskrun`.
pub open spec fn children_from(
    ch: Seq<TaskDef>,
    j: int,
    base: Seq<char>,
    inputs: Seq<Seq<char>>,
    vars: Seq<Seq<char>>,
    sib: Seq<(Seq<char>, Seq<Seq<char>>)>,
    ids: Seq<Seq<char>>,
    k: int,
    checks: Seq<PluginCheck>,
) -> Seq<Problem>
    decreases ch.len() - j,
{
    if j < 0 || j >= ch.len() {
        Seq::empty()
    } else {
        let c = ch[j];
        let cb = indexed(base + ".tasks"@, j);
        register_problems(c.id@, cb + ".id"@, ids) + match c.kind {
            TaskKind::Plugin(p) => plugin_task_problems(p, cb, scope_view(inputs, vars, sib, true), checks[k])
                + children_from(
                ch,
                j + 1,
                base,
                inputs,
                vars,
                sib.push((c.id@, output_names(p.outputs@))),
                ids.push(c.id@),
                k + 1,
                checks,
            ),
            TaskKind::Parallel(_) => one(cb + ".type"@, "nested parallel tasks are not allowed"@)
                + children_from(ch, j + 1, base, inputs, vars, sib, ids.push(c.id@), k, checks),
        }
    }
}

/// What is wrong with a parallel task at `base`.
pub open spec fn parallel_problems(
    par: ParallelTask,
    base: Seq<char>,
    inputs: Seq<Seq<char>>,
    vars: Seq<Seq<char>>,
    outs: Seq<(Seq<char>, Seq<Seq<char>>)>,
    ids: Seq<Seq<char>>,
    k: int,
    checks: Seq<PluginCheck>,
) -> Seq<Problem> {
    (if trimmed(par.items@).len() == 0 {
        one(base + ".items"@, "items must not be empty"@)
    } else {
        template_problems(par.items@, base + ".items"@, scope_view(inputs, vars, outs, false))
    }) + (if !(1 <= par.concurrency <= 256) {
        one(
            base + ".concurrency"@,
            "concurrency must be between 1 and 256, got "@ + decimal(par.concurrency as nat),
        )
    } else {
        Seq::empty()
    }) + (if par.tasks@.len() == 0 {
        one(base + ".tasks"@, "parallel task must have at least one child task"@)
    } else {
        Seq::empty()
    }) + children_from(par.tasks@, 0, base, inputs, vars, outs, ids, k, checks) + outputs_problems_from(
        par.outputs@,
        0,
        base,
    )
}

fn output_name_list(outs: &Vec<OutputDef>) -> (r: Vec<String>)
    ensures
        names(r@) == output_names(outs@),
{
    let mut r: Vec<String> = Vec::new();
    let mut i: usize = 0;
    while i < outs.len()
        invariant
            i <= outs@.len(),
            names(r@) == output_names(outs@.take(i as int)),
        decreases outs@.len() - i,
    {
        let ghost prev = r@;
        let name = outs[i].name.clone();
        r.push(name);
        proof {
            assert(names(r@) =~= names(prev).push(outs@[i as int].name@));
            assert(outs@.take(i as int + 1) =~= outs@.take(i as int).push(outs@[i as int]));
            assert(output_names(outs@.take(i as int + 1)) =~= output_names(outs@.take(i as int)).push(outs@[i as int].name@));
        }
        i = i + 1;
    }
    proof {
        assert(outs@.take(i as int) =~= outs@);
    }
    r
}

fn copy_names(v: &Vec<String>) -> (r: Vec<String>)
    ensures
        names(r@) == names(v@),
{
    let mut r: Vec<String> = Vec::new();
    let mut i: usize = 0;
    while i < v.len()
        invariant
            i <= v@.len(),
            names(r@) == names(v@.take(i as int)),
        decreases v@.len() - i,
    {
        let ghost prev = r@;
        let x = v[i].clone();
        r.push(x);
        proof {
            assert(names(r@) =~= names(prev).push(v@[i as int]@));
            assert(v@.take(i as int + 1) =~= v@.take(i as int).push(v@[i as int]));
            assert(names(v@.take(i as int + 1)) =~= names(v@.take(i as int)).push(v@[i as int]@));
        }
        i = i + 1;
    }
    proof {
        assert(v@.take(i as int) =~= v@);
    }
    r
}

fn copy_entries(v: &Vec<(String, Vec<String>)>) -> (r: Vec<(String, Vec<String>)>)
    ensures
        entries(r@) == entries(v@),
{
    let mut r: Vec<(String, Vec<String>)> = Vec::new();
    let mut i: usize = 0;
    while i < v.len()
        invariant
            i <= v@.len(),
            entries(r@) == entries(v@.take(i as int)),
        decreases v@.len() - i,
    {
        let ghost prev = r@;
        let key = v[i].0.clone();
        let ns = copy_names(&v[i].1);
        r.push((key, ns));
        proof {
            assert(entries(r@) =~= entries(prev).push((v@[i as int].0@, names(v@[i as int].1@))));
            assert(v@.take(i as int + 1) =~= v@.take(i as int).push(v@[i as int]));
            assert(entries(v@.take(i as int + 1)) =~= entries(v@.take(i as int)).push((v@[i as int].0@, names(v@[i as int].1@))));
        }
        i = i + 1;
    }
    proof {
        assert(v@.take(i as int) =~= v@);
    }
    r
}

/// Checks a parallel task at `base`: its items template, concurrency, and
/// children; `k` is the index of its first plugin child among all plugin
/// tasks of the flow.
#[verifier::spinoff_prover]
#[verifier::rlimit(50)]
pub fn validate_parallel(
    par: &ParallelTask,
    base: &str,
    inputs: &Vec<String>,
    vars: &Vec<String>,
    outs: &Vec<(String, Vec<String>)>,
    task_ids: &mut Vec<String>,
    k: usize,
    checks: &Vec<PluginCheck>,
    errs: &mut Vec<ValidationErr>,
)
    requires
        k + plugins_from(par.tasks@, 0) <= checks@.len(),
    ensures
        problems(final(errs)@) == problems(old(errs)@) + parallel_problems(
            *par,
            base@,
            names(inputs@),
            names(vars@),
            entries(outs@),
            names(old(task_ids)@),
            k as int,
            checks@,
        ),
        names(final(task_ids)@) == ids_after(par.tasks@, 0, names(old(task_ids)@)),
{
    let ghost start = problems(errs@);
    let items_at = cat2(base, ".items");
    let t = trim_chars(par.items.as_str());
    if t.len() == 0 {
        push(errs, items_at, "items must not be empty".to_owned());
    } else {
        let scope = Scope { inputs, vars, outputs: outs, taskrun_allowed: false };
        check_template(par.items.as_str(), items_at.as_str(), &scope, errs);
    }
    let ghost a = problems(errs@);
    if !(1 <= par.concurrency && par.concurrency <= 256) {
        let n = decimal_u64(par.concurrency as u64);
        push(errs, cat2(base, ".concurrency"), cat2("concurrency must be between 1 and 256, got ", n.as_str()));
    }
    let ghost b = problems(errs@);
    if par.tasks.len() == 0 {
        push(errs, cat2(base, ".tasks"), "parallel task must have at least one child task".to_owned());
    }
    let ghost c = problems(errs@);
    let ghost ch = par.tasks@;
    let ghost ids0 = names(task_ids@);
    let mut sib = copy_entries(outs);
    let mut kk = k;
    let mut j: usize = 0;
    let children_base = cat2(base, ".tasks");
    while j < par.tasks.len()
        invariant
            j <= ch.len(),
            ch == par.tasks@,
            children_base@ == base@ + ".tasks"@,
            kk + plugins_from(ch, j as int) == k + plugins_from(ch, 0),
            k + plugins_from(ch, 0) <= checks@.len(),
            ids_after(ch, j as int, names(task_ids@)) == ids_after(ch, 0, ids0),
            problems(errs@) + children_from(ch, j as int, base@, names(inputs@), names(vars@), entries(sib@), names(task_ids@), kk as int, checks@)
                == c + children_from(ch, 0, base@, names(inputs@), names(vars@), entries(outs@), ids0, k as int, checks@),
        decreases ch.len() - j,
    {
        let ghost before = problems(errs@);
        let ghost ids_before = names(task_ids@);
        let ghost sib_before = entries(sib@);
        let child = &par.tasks[j];
        let cb = indexed_path(children_base.as_str(), j);
        let id_at = cat2(cb.as_str(), ".id");
        register_task_id(child.id.as_str(), id_at.as_str(), task_ids, errs);
        match &child.kind {
            TaskKind::Plugin(p) => {
                proof {
                    assert(plugins_from(ch, j as int) == 1 + plugins_from(ch, j + 1));
                    lemma_plugins_from_nonneg(ch, j + 1);
                }
                let scope = Scope { inputs, vars, outputs: &sib, taskrun_allowed: true };
                validate_plugin_task(p, cb.as_str(), &scope, &checks[kk], errs);
                let names_out = output_name_list(&p.outputs);
                sib.push((child.id.clone(), names_out));
                proof {
                    assert(entries(sib@) =~= sib_before.push((child.id@, output_names(p.outputs@))));
                }
                assert(kk < checks.len());
                kk = kk + 1;
            },
            TaskKind::Parallel(_) => {
                push(errs, cat2(cb.as_str(), ".type"), "nested parallel tasks are not allowed".to_owned());
            },
        }
        proof {
            assert(problems(errs@) + children_from(ch, j + 1, base@, names(inputs@), names(vars@), entries(sib@), names(task_ids@), kk as int, checks@)
                =~= before + children_from(ch, j as int, base@, names(inputs@), names(vars@), sib_before, ids_before, (if child.kind is Plugin { kk - 1 } else { kk as int }), checks@));
        }
        j = j + 1;
    }
    proof {
        assert(children_from(ch, j as int, base@, names(inputs@), names(vars@), entries(sib@), names(task_ids@), kk as int, checks@) =~= Seq::<Problem>::empty());
    }
    let ghost d = problems(errs@);
    validate_outputs(&par.outputs, base, errs);
    proof {
        assert(problems(errs@) =~= start + parallel_problems(*par, base@, names(inputs@), names(vars@), entries(outs@), ids0, k as int, checks@));
    }
}

/// How many plugin tasks a task holds: one for a plugin task, the plugin
/// children for a parallel one.
pub open spec fn step_count(t: TaskDef) -> int {
    match t.kind {
        TaskKind::Plugin(_) => 1int,
        TaskKind::Parallel(par) => plugins_from(par.tasks@, 0),
    }
}

/// The plugin tasks among `ts[i..]`, children of parallel tasks included.
pub open spec fn flow_plugins_from(ts: Seq<TaskDef>, i: int) -> int
    decreases ts.len() - i,
{
    if i < 0 || i >= ts.len() {
        0
    } else {
        step_count(ts[i]) + flow_plugins_from(ts, i + 1)
    }
}

pub proof fn lemma_flow_plugins_nonneg(ts: Seq<TaskDef>, i: int)
    ensures
        flow_plugins_from(ts, i) >= 0,
    decreases ts.len() - i,
{
    if 0 <= i < ts.len() {
        lemma_flow_plugins_nonneg(ts, i + 1);
        if let TaskKind::Parallel(par) = ts[i].kind {
            lemma_plugins_from_nonneg(par.tasks@, 0);
        }
    }
}

/// The outputs in scope after task `t`.
pub open spec fn step_outs(t: TaskDef, outs: Seq<(Seq<char>, Seq<Seq<char>>)>) -> Seq<(Seq<char>, Seq<Seq<char>>)> {
    match t.kind {
        TaskKind::Plugin(p) => outs.push((t.id@, output_names(p.outputs@))),
        TaskKind::Parallel(par) => outs.push((t.id@, output_names(par.outputs@))),
    }
}

/// The task ids taken after task `t`, its children's included.
pub open spec fn step_ids(t: TaskDef, ids: Seq<Seq<char>>) -> Seq<Seq<char>> {
    match t.kind {
        TaskKind::Plugin(_) => ids.push(t.id@),
        TaskKind::Parallel(par) => ids_after(par.tasks@, 0, ids.push(t.id@)),
    }
}

/// What is wrong with the `i`th task of a flow, given the scope and ids
/// before it; `k` counts the plugin tasks before it.
pub open spec fn step_problems(
    t: TaskDef,
    i: int,
    inputs: Seq<Seq<char>>,
    vars: Seq<Seq<char>>,
    outs: Seq<(Seq<char>, Seq<Seq<char>>)>,
    ids: Seq<Seq<char>>,
    k: int,
    checks: Seq<PluginCheck>,
) -> Seq<Problem> {
    let b = indexed("tasks"@, i);
    register_problems(t.id@, b + ".id"@, ids) + match t.kind {
        TaskKind::Plugin(p) => plugin_task_problems(p, b, scope_view(inputs, vars, outs, false), checks[k]),
        TaskKind::Parallel(par) => parallel_problems(par, b, inputs, vars, outs, ids.push(t.id@), k, checks),
    }
}

/// The tasks of a flow from the `i`th on, in definition order: ids unique
/// across the flow, each task in the scope of the outputs of the tasks
/// before it.
pub open spec fn tasks_from(
    ts: Seq<TaskDef>,
    i: int,
    inputs: Seq<Seq<char>>,
    vars: Seq<Seq<char>>,
    outs: Seq<(Seq<char>, Seq<Seq<char>>)>,
    ids: Seq<Seq<char>>,
    k: int,
    checks: Seq<PluginCheck>,
) -> Seq<Problem>
    decreases ts.len() - i,
{
    if i < 0 || i >= ts.len() {
        Seq::empty()
    } else {
        step_problems(ts[i], i, inputs, vars, outs, ids, k, checks) + tasks_from(
            ts,
            i + 1,
            inputs,
            vars,
            step_outs(ts[i], outs),
            step_ids(ts[i], ids),
            k + step_count(ts[i]),
            checks,
        )
    }
}

/// Checks the `i`th task of a flow; returns the count of plugin tasks
/// after it.
fn validate_task(
    task: &TaskDef,
    i: usize,
    inputs: &Vec<String>,
    vars: &Vec<String>,
    outs: &mut Vec<(String, Vec<String>)>,
    task_ids: &mut Vec<String>,
    k: usize,
    checks: &Vec<PluginCheck>,
    errs: &mut Vec<ValidationErr>,
) -> (k2: usize)
    requires
        k + step_count(*task) <= checks@.len(),
    ensures
        problems(final(errs)@) == problems(old(errs)@) + step_problems(
            *task,
            i as int,
            names(inputs@),
            names(vars@),
            entries(old(outs)@),
            names(old(task_ids)@),
            k as int,
            checks@,
        ),
        entries(final(outs)@) == step_outs(*task, entries(old(outs)@)),
        names(final(task_ids)@) == step_ids(*task, names(old(task_ids)@)),
        k2 == k + step_count(*task),
{
    let ghost start = problems(errs@);
    let ghost outs_before = entries(outs@);
    let b = indexed_path("tasks", i);
    let id_at = cat2(b.as_str(), ".id");
    register_task_id(task.id.as_str(), id_at.as_str(), task_ids, errs);
    match &task.kind {
        TaskKind::Plugin(p) => {
            let scope = Scope { inputs, vars, outputs: outs, taskrun_allowed: false };
            validate_plugin_task(p, b.as_str(), &scope, &checks[k], errs);
            let names_out = output_name_list(&p.outputs);
            outs.push((task.id.clone(), names_out));
            proof {
                assert(entries(outs@) =~= outs_before.push((task.id@, output_names(p.outputs@))));
                assert(problems(errs@) =~= start + step_problems(*task, i as int, names(inputs@), names(vars@), outs_before, names(old(task_ids)@), k as int, checks@));
            }
            assert(k < checks.len());
            k + 1
        },
        TaskKind::Parallel(par) => {
            proof {
                lemma_plugins_from_nonneg(par.tasks@, 0);
            }
            validate_parallel(par, b.as_str(), inputs, vars, outs, task_ids, k, checks, errs);
            let names_out = output_name_list(&par.outputs);
            outs.push((task.id.clone(), names_out));
            proof {
                assert(entries(outs@) =~= outs_before.push((task.id@, output_names(par.outputs@))));
                assert(problems(errs@) =~= start + step_problems(*task, i as int, names(inputs@), names(vars@), outs_before, names(old(task_ids)@), k as int, checks@));
            }
            let n = par_plugin_count(&par.tasks);
            assert(k + n <= checks.len());
            k + n
        },
    }
}

/// Checks the task list of a flow.
#[verifier::spinoff_prover]
pub fn validate_tasks(
    tasks: &Vec<TaskDef>,
    inputs: &Vec<String>,
    vars: &Vec<String>,
    checks: &Vec<PluginCheck>,
    errs: &mut Vec<ValidationErr>,
)
    requires
        flow_plugins_from(tasks@, 0) <= checks@.len(),
    ensures
        problems(final(errs)@) == problems(old(errs)@) + tasks_from(
            tasks@,
            0,
            names(inputs@),
            names(vars@),
            Seq::empty(),
            Seq::empty(),
            0,
            checks@,
        ),
{
    let ghost start = problems(errs@);
    let ghost ts = tasks@;
    let mut task_ids: Vec<String> = Vec::new();
    let mut outs: Vec<(String, Vec<String>)> = Vec::new();
    let mut k: usize = 0;
    let mut i: usize = 0;
    proof {
        assert(names(task_ids@) =~= Seq::<Seq<char>>::empty());
        assert(entries(outs@) =~= Seq::<(Seq<char>, Seq<Seq<char>>)>::empty());
    }
    while i < tasks.len()
        invariant
            i <= ts.len(),
            ts == tasks@,
            k + flow_plugins_from(ts, i as int) == flow_plugins_from(ts, 0),
            flow_plugins_from(ts, 0) <= checks@.len(),
            problems(errs@) + tasks_from(ts, i as int, names(inputs@), names(vars@), entries(outs@), names(task_ids@), k as int, checks@)
                == start + tasks_from(ts, 0, names(inputs@), names(vars@), Seq::empty(), Seq::empty(), 0, checks@),
        decreases ts.len() - i,
    {
        let ghost before = problems(errs@);
        let ghost outs_before = entries(outs@);
        let ghost ids_before = names(task_ids@);
        let ghost k_before = k as int;
        proof {
            lemma_flow_plugins_nonneg(ts, i + 1);
        }
        k = validate_task(&tasks[i], i, inputs, vars, &mut outs, &mut task_ids, k, checks, errs);
        proof {
            assert(problems(errs@) + tasks_from(ts, i + 1, names(inputs@), names(vars@), entries(outs@), names(task_ids@), k as int, checks@)
                =~= before + tasks_from(ts, i as int, names(inputs@), names(vars@), outs_before, ids_before, k_before, checks@));
        }
        i = i + 1;
    }
    proof {
        assert(tasks_from(ts, i as int, names(inputs@), names(vars@), entries(outs@), names(task_ids@), k as int, checks@) =~= Seq::<Problem>::empty());
    }
}

/// How many plugin tasks are among `ts`.
fn par_plugin_count(ts: &Vec<TaskDef>) -> (n: usize)
    ensures
        n == plugins_from(ts@, 0),
{
    let mut n: usize = 0;
    let mut j: usize = ts.len();
    while j > 0
        invariant
            j <= ts@.len(),
            ts@.len() == ts.len(),
            n == plugins_from(ts@, j as int),
        decreases j,
    {
        proof {
            lemma_plugins_from_bounds(ts@, j as int);
            lemma_plugins_from_count_step(ts@, j - 1);
        }
        if let TaskKind::Plugin(_) = &ts[j - 1].kind {
            n = n + 1;
        }
        j = j - 1;
    }
    n
}

proof fn lemma_plugins_from_bounds(ts: Seq<TaskDef>, j: int)
    requires
        0 <= j <= ts.len(),
    ensures
        0 <= plugins_from(ts, j) <= ts.len() - j,
    decreases ts.len() - j,
{
    if j < ts.len() {
        lemma_plugins_from_bounds(ts, j + 1);
    }
}

proof fn lemma_plugins_from_count_step(ts: Seq<TaskDef>, j: int)
    requires
        0 <= j < ts.len(),
    ensures
        plugins_from(ts, j) == (if ts[j].kind is Plugin { 1int } else { 0int }) + plugins_from(ts, j + 1),
{
}

// ------------------------------------------- inputs, variables, triggers

pub open spec fn input_ids(inputs: Seq<InputDef>) -> Seq<Seq<char>> {
    inputs.map_values(|d: InputDef| d.id@)
}

pub open spec fn var_ids(vars: Seq<VarDef>) -> Seq<Seq<char>> {
    vars.map_values(|d: VarDef| d.id@)
}

pub open spec fn trigger_ids(ts: Seq<TriggerDef>) -> Seq<Seq<char>> {
    ts.map_values(|d: TriggerDef| d.id@)
}

/// Problems of an id at `path` that the ids before it may repeat.
pub open spec fn unique_id_problems(id: Seq<char>, path: Seq<char>, before: Seq<Seq<char>>, what: Seq<char>) -> Seq<Problem> {
    id_problems(id, path) + if before.contains(id) {
        one(path, "duplicate "@ + what + " id `"@ + id + "`"@)
    } else {
        Seq::empty()
    }
}

pub open spec fn inputs_from(inputs: Seq<InputDef>, i: int) -> Seq<Problem>
    decreases inputs.len() - i,
{
    if i < 0 || i >= inputs.len() {
        Seq::empty()
    } else {
        unique_id_problems(inputs[i].id@, indexed("inputs"@, i) + ".id"@, input_ids(inputs.take(i)), "input"@)
            + inputs_from(inputs, i + 1)
    }
}

pub open spec fn vars_from(vars: Seq<VarDef>, i: int) -> Seq<Problem>
    decreases vars.len() - i,
{
    if i < 0 || i >= vars.len() {
        Seq::empty()
    } else {
        unique_id_problems(vars[i].id@, indexed("variables"@, i) + ".id"@, var_ids(vars.take(i)), "variable"@)
            + vars_from(vars, i + 1)
    }
}

/// What is wrong with the `i`th trigger: its id, kind, cron and timezone.
pub open spec fn trigger_problems(ts: Seq<TriggerDef>, i: int) -> Seq<Problem> {
    let t = ts[i];
    let b = indexed("triggers"@, i);
    unique_id_problems(t.id@, b + ".id"@, trigger_ids(ts.take(i)), "trigger"@) + (if t.trigger_type@ != "schedule"@ {
        one(b + ".type"@, "trigger type must be `schedule`, got `"@ + t.trigger_type@ + "`"@)
    } else {
        Seq::empty()
    }) + (match cron_problem(t.cron@) {
        Some(e) => one(b + ".cron"@, "invalid cron expression `"@ + t.cron@ + "`: "@ + e),
        None => Seq::empty(),
    }) + (if !known_timezone(t.timezone@) {
        one(b + ".timezone"@, "unknown timezone `"@ + t.timezone@ + "`"@)
    } else {
        Seq::empty()
    })
}

pub open spec fn triggers_from(ts: Seq<TriggerDef>, i: int) -> Seq<Problem>
    decreases ts.len() - i,
{
    if i < 0 || i >= ts.len() {
        Seq::empty()
    } else {
        trigger_problems(ts, i) + triggers_from(ts, i + 1)
    }
}

fn contains_before(ids: &Vec<String>, id: &str) -> (b: bool)
    ensures
        b == names(ids@).contains(id@),
{
    contains_name(ids, id)
}

fn check_unique_id(id: &str, path: &str, before: &Vec<String>, what: &str, errs: &mut Vec<ValidationErr>)
    ensures
        problems(final(errs)@) == problems(old(errs)@) + unique_id_problems(id@, path@, names(before@), what@),
{
    let ghost start = problems(errs@);
    check_id(id, path, errs);
    if contains_before(before, id) {
        let mut m = cat3("duplicate ", what, " id `");
        push_str(&mut m, id);
        push_str(&mut m, "`");
        push(errs, path.to_owned(), m);
    }
    proof {
        assert(problems(errs@) =~= start + unique_id_problems(id@, path@, names(before@), what@));
    }
}

/// Checks input ids (shape and uniqueness); returns all of them.
pub fn validate_inputs(inputs: &Vec<InputDef>, errs: &mut Vec<ValidationErr>) -> (ids: Vec<String>)
    ensures
        problems(final(errs)@) == problems(old(errs)@) + inputs_from(inputs@, 0),
        names(ids@) == input_ids(inputs@),
{
    let ghost start = problems(errs@);
    let mut ids: Vec<String> = Vec::new();
    let mut i: usize = 0;
    while i < inputs.len()
        invariant
            i <= inputs@.len(),
            names(ids@) == input_ids(inputs@.take(i as int)),
            problems(errs@) + inputs_from(inputs@, i as int) == start + inputs_from(inputs@, 0),
        decreases inputs@.len() - i,
    {
        let ghost before = problems(errs@);
        let p = indexed_path("inputs", i);
        let at = cat2(p.as_str(), ".id");
        check_unique_id(inputs[i].id.as_str(), at.as_str(), &ids, "input", errs);
        let ghost prev = ids@;
        ids.push(inputs[i].id.clone());
        proof {
            assert(names(ids@) =~= names(prev).push(inputs@[i as int].id@));
            assert(inputs@.take(i as int + 1) =~= inputs@.take(i as int).push(inputs@[i as int]));
            assert(input_ids(inputs@.take(i as int + 1)) =~= input_ids(inputs@.take(i as int)).push(inputs@[i as int].id@));
            assert(problems(errs@) + inputs_from(inputs@, i + 1) =~= before + inputs_from(inputs@, i as int));
        }
        i = i + 1;
    }
    proof {
        assert(inputs@.take(i as int) =~= inputs@);
        assert(problems(errs@) + Seq::<Problem>::empty() =~= problems(errs@));
    }
    ids
}

/// Checks variable ids (shape and uniqueness); returns all of them.
pub fn validate_variables(vars: &Vec<VarDef>, errs: &mut Vec<ValidationErr>) -> (ids: Vec<String>)
    ensures
        problems(final(errs)@) == problems(old(errs)@) + vars_from(vars@, 0),
        names(ids@) == var_ids(vars@),
{
    let ghost start = problems(errs@);
    let mut ids: Vec<String> = Vec::new();
    let mut i: usize = 0;
    while i < vars.len()
        invariant
            i <= vars@.len(),
            names(ids@) == var_ids(vars@.take(i as int)),
            problems(errs@) + vars_from(vars@, i as int) == start + vars_from(vars@, 0),
        decreases vars@.len() - i,
    {
        let ghost before = problems(errs@);
        let p = indexed_path("variables", i);
        let at = cat2(p.as_str(), ".id");
        check_unique_id(vars[i].id.as_str(), at.as_str(), &ids, "variable", errs);
        let ghost prev = ids@;
        ids.push(vars[i].id.clone());
        proof {
            assert(names(ids@) =~= names(prev).push(vars@[i as int].id@));
            assert(vars@.take(i as int + 1) =~= vars@.take(i as int).push(vars@[i as int]));
            assert(var_ids(vars@.take(i as int + 1)) =~= var_ids(vars@.take(i as int)).push(vars@[i as int].id@));
            assert(problems(errs@) + vars_from(vars@, i + 1) =~= before + vars_from(vars@, i as int));
        }
        i = i + 1;
    }
    proof {
        assert(vars@.take(i as int) =~= vars@);
        assert(problems(errs@) + Seq::<Problem>::empty() =~= problems(errs@));
    }
    ids
}

fn check_trigger(ts: &Vec<TriggerDef>, i: usize, before: &Vec<String>, errs: &mut Vec<ValidationErr>)
    requires
        i < ts@.len(),
        names(before@) == trigger_ids(ts@.take(i as int)),
    ensures
        problems(final(errs)@) == problems(old(errs)@) + trigger_problems(ts@, i as int),
{
    let ghost start = problems(errs@);
    let t = &ts[i];
    let b = indexed_path("triggers", i);
    let at = cat2(b.as_str(), ".id");
    check_unique_id(t.id.as_str(), at.as_str(), before, "trigger", errs);
    let ghost a = problems(errs@);
    if !str_eq(t.trigger_type.as_str(), "schedule") {
        push(errs, cat2(b.as_str(), ".type"), cat3("trigger type must be `schedule`, got `", t.trigger_type.as_str(), "`"));
    }
    let ghost c = problems(errs@);
    match cron_error(t.cron.as_str()) {
        Some(e) => {
            let mut m = cat3("invalid cron expression `", t.cron.as_str(), "`: ");
            push_str(&mut m, e.as_str());
            push(errs, cat2(b.as_str(), ".cron"), m);
        },
        None => no_problem(errs),
    }
    let ghost d = problems(errs@);
    if !timezone_known(t.timezone.as_str()) {
        push(errs, cat2(b.as_str(), ".timezone"), cat3("unknown timezone `", t.timezone.as_str(), "`"));
    }
    proof {
        assert(problems(errs@) =~= start + trigger_problems(ts@, i as int));
    }
}

/// Checks trigger ids, kinds, cron expressions and timezones.
#[verifier::spinoff_prover]
pub fn validate_triggers(ts: &Vec<TriggerDef>, errs: &mut Vec<ValidationErr>)
    ensures
        problems(final(errs)@) == problems(old(errs)@) + triggers_from(ts@, 0),
{
    let ghost start = problems(errs@);
    let mut ids: Vec<String> = Vec::new();
    let mut i: usize = 0;
    while i < ts.len()
        invariant
            i <= ts@.len(),
            names(ids@) == trigger_ids(ts@.take(i as int)),
            problems(errs@) + triggers_from(ts@, i as int) == start + triggers_from(ts@, 0),
        decreases ts@.len() - i,
    {
        let ghost before = problems(errs@);
        check_trigger(ts, i, &ids, errs);
        let ghost prev = ids@;
        ids.push(ts[i].id.clone());
        proof {
            assert(names(ids@) =~= names(prev).push(ts@[i as int].id@));
            assert(ts@.take(i as int + 1) =~= ts@.take(i as int).push(ts@[i as int]));
            assert(trigger_ids(ts@.take(i as int + 1)) =~= trigger_ids(ts@.take(i as int)).push(ts@[i as int].id@));
            assert(problems(errs@) + triggers_from(ts@, i + 1) =~= before + triggers_from(ts@, i as int));
        }
        i = i + 1;
    }
    proof {
        assert(problems(errs@) + Seq::<Problem>::empty() =~= problems(errs@));
    }
}

// ------------------------------------------------- defaults of inputs

/// The inputs a scheduled run cannot get: required and without default,
/// each as `` `id` ``.
pub open spec fn missing_defaults(inputs: Seq<InputDef>) -> Seq<Seq<char>>
    decreases inputs.len(),
{
    if inputs.len() == 0 {
        Seq::empty()
    } else {
        let rest = missing_defaults(inputs.drop_last());
        let d = inputs.last();
        if d.required && d.default is None {
            rest.push("`"@ + d.id@ + "`"@)
        } else {
            rest
        }
    }
}

/// Parts joined with `", "`.
pub open spec fn joined(parts: Seq<Seq<char>>) -> Seq<char>
    decreases parts.len(),
{
    if parts.len() == 0 {
        Seq::empty()
    } else if parts.len() == 1 {
        parts[0]
    } else {
        joined(parts.drop_last()) + ", "@ + parts.last()
    }
}

pub open spec fn schedule_message(missing: Seq<Seq<char>>) -> Seq<char> {
    let (noun, verb) = if missing.len() == 1 { ("input"@, "has"@) } else { ("inputs"@, "have"@) };
    "scheduled runs will fail: required "@ + noun + " "@ + joined(missing) + " "@ + verb + " no default"@
}

pub open spec fn scheduled_from(ts: Seq<TriggerDef>, i: int, message: Seq<char>) -> Seq<Problem>
    decreases ts.len() - i,
{
    if i < 0 || i >= ts.len() {
        Seq::empty()
    } else {
        (if ts[i].trigger_type@ == "schedule"@ && ts[i].enabled {
            one(indexed("triggers"@, i), message)
        } else {
            Seq::empty()
        }) + scheduled_from(ts, i + 1, message)
    }
}

/// Scheduled runs supply no inputs: with an enabled schedule trigger, a
/// required input without default fails every scheduled run. Flagged on
/// each enabled schedule trigger.
pub open spec fn schedule_default_problems(inputs: Seq<InputDef>, ts: Seq<TriggerDef>) -> Seq<Problem> {
    let missing = missing_defaults(inputs);
    if missing.len() == 0 {
        Seq::empty()
    } else {
        scheduled_from(ts, 0, schedule_message(missing))
    }
}

#[verifier::spinoff_prover]
pub fn validate_schedule_input_defaults(inputs: &Vec<InputDef>, ts: &Vec<TriggerDef>, errs: &mut Vec<ValidationErr>)
    ensures
        problems(final(errs)@) == problems(old(errs)@) + schedule_default_problems(inputs@, ts@),
{
    let ghost start = problems(errs@);
    let mut missing: Vec<String> = Vec::new();
    let mut i: usize = 0;
    while i < inputs.len()
        invariant
            i <= inputs@.len(),
            names(missing@) == missing_defaults(inputs@.take(i as int)),
        decreases inputs@.len() - i,
    {
        proof {
            assert(inputs@.take(i as int + 1).drop_last() =~= inputs@.take(i as int));
        }
        let d = &inputs[i];
        if d.required && d.default.is_none() {
            let ghost prev = missing@;
            missing.push(cat3("`", d.id.as_str(), "`"));
            proof {
                assert(names(missing@) =~= names(prev).push("`"@ + d.id@ + "`"@));
            }
        }
        i = i + 1;
    }
    proof {
        assert(inputs@.take(i as int) =~= inputs@);
    }
    if missing.len() == 0 {
        no_problem(errs);
        return;
    }
    let mut names_text = String::new();
    let mut k: usize = 0;
    while k < missing.len()
        invariant
            k <= missing@.len(),
            names_text@ == joined(names(missing@).take(k as int)),
        decreases missing@.len() - k,
    {
        proof {
            assert(names(missing@).take(k as int + 1).drop_last() =~= names(missing@).take(k as int));
        }
        if k > 0 {
            push_str(&mut names_text, ", ");
        }
        push_str(&mut names_text, missing[k].as_str());
        proof {
            if k == 0 {
                assert(names_text@ =~= names(missing@).take(1)[0]);
            }
        }
        k = k + 1;
    }
    proof {
        assert(names(missing@).take(k as int) =~= names(missing@));
    }
    let (noun, verb) = if missing.len() == 1 { ("input", "has") } else { ("inputs", "have") };
    let mut message = cat3("scheduled runs will fail: required ", noun, " ");
    push_str(&mut message, names_text.as_str());
    push_str(&mut message, " ");
    push_str(&mut message, verb);
    push_str(&mut message, " no default");
    let ghost msg = message@;
    proof {
        assert(msg =~= schedule_message(names(missing@)));
    }
    let mut j: usize = 0;
    while j < ts.len()
        invariant
            j <= ts@.len(),
            message@ == msg,
            problems(errs@) + scheduled_from(ts@, j as int, msg) == start + scheduled_from(ts@, 0, msg),
        decreases ts@.len() - j,
    {
        let ghost before = problems(errs@);
        if str_eq(ts[j].trigger_type.as_str(), "schedule") && ts[j].enabled {
            push(errs, indexed_path("triggers", j), message.clone());
        }
        proof {
            assert(problems(errs@) + scheduled_from(ts@, j + 1, msg) =~= before + scheduled_from(ts@, j as int, msg));
        }
        j = j + 1;
    }
    proof {
        assert(problems(errs@) + Seq::<Problem>::empty() =~= problems(errs@));
    }
}

/// Input defaults render at trigger time: inputs, variables and secrets
/// are in scope; task outputs and `taskrun` are not.
pub open spec fn defaults_from(inputs: Seq<InputDef>, i: int, scope: ScopeView) -> Seq<Problem>
    decreases inputs.len() - i,
{
    if i < 0 || i >= inputs.len() {
        Seq::empty()
    } else {
        (match inputs[i].default {
            Some(d) => template_problems(d@, indexed("inputs"@, i) + ".default"@, scope),
            None => Seq::empty(),
        }) + defaults_from(inputs, i + 1, scope)
    }
}

#[verifier::spinoff_prover]
pub fn validate_input_defaults(inputs: &Vec<InputDef>, scope: &Scope, errs: &mut Vec<ValidationErr>)
    ensures
        problems(final(errs)@) == problems(old(errs)@) + defaults_from(inputs@, 0, scope.view()),
{
    let ghost start = problems(errs@);
    let mut i: usize = 0;
    while i < inputs.len()
        invariant
            i <= inputs@.len(),
            problems(errs@) + defaults_from(inputs@, i as int, scope.view()) == start + defaults_from(inputs@, 0, scope.view()),
        decreases inputs@.len() - i,
    {
        let ghost before = problems(errs@);
        match &inputs[i].default {
            Some(d) => {
                let p = indexed_path("inputs", i);
                let at = cat2(p.as_str(), ".default");
                check_template(d.as_str(), at.as_str(), scope, errs);
            },
            None => no_problem(errs),
        }
        proof {
            assert(problems(errs@) + defaults_from(inputs@, i + 1, scope.view()) =~= before + defaults_from(inputs@, i as int, scope.view()));
        }
        i = i + 1;
    }
    proof {
        assert(problems(errs@) + Seq::<Problem>::empty() =~= problems(errs@));
    }
}

// ------------------------------------------------------------- the flow

/// Every problem of a flow definition, in the order they are reported: its
/// name and queue, inputs, variables, triggers, defaults, then tasks.
pub open spec fn flow_problems(def: FlowDefinition, checks: Seq<PluginCheck>) -> Seq<Problem> {
    let inputs = input_ids(def.inputs@);
    let vars = var_ids(def.variables@);
    (if trimmed(def.name@).len() == 0 {
        one("name"@, "name must not be empty"@)
    } else {
        Seq::empty()
    }) + (if !valid_id(def.queue@) {
        one("queue"@, "invalid queue `"@ + def.queue@ + "`: must match [a-z][a-z0-9_]* (max 64 chars)"@)
    } else {
        Seq::empty()
    }) + inputs_from(def.inputs@, 0) + vars_from(def.variables@, 0) + triggers_from(def.triggers@, 0)
        + schedule_default_problems(def.inputs@, def.triggers@) + defaults_from(
        def.inputs@,
        0,
        scope_view(inputs, vars, Seq::empty(), false),
    ) + tasks_from(def.tasks@, 0, inputs, vars, Seq::empty(), Seq::empty(), 0, checks)
}

/// Validates a flow definition. `checks` holds what the plugin registry
/// says of each plugin task, in the order of [`plugin_tasks`]. Returns all
/// problems found; none means the definition is valid.
pub fn validate(def: &FlowDefinition, checks: &Vec<PluginCheck>) -> (errs: Vec<ValidationErr>)
    requires
        checks@.len() == flow_plugins_from(def.tasks@, 0),
    ensures
        problems(errs@) == flow_problems(*def, checks@),
{
    let mut errs: Vec<ValidationErr> = Vec::new();
    let name = trim_chars(def.name.as_str());
    if name.len() == 0 {
        push(&mut errs, "name".to_owned(), "name must not be empty".to_owned());
    }
    let ghost a = problems(errs@);
    if !is_valid_id(def.queue.as_str()) {
        push(&mut errs, "queue".to_owned(), cat3("invalid queue `", def.queue.as_str(), "`: must match [a-z][a-z0-9_]* (max 64 chars)"));
    }
    let inputs = validate_inputs(&def.inputs, &mut errs);
    let vars = validate_variables(&def.variables, &mut errs);
    validate_triggers(&def.triggers, &mut errs);
    validate_schedule_input_defaults(&def.inputs, &def.triggers, &mut errs);
    let no_outputs: Vec<(String, Vec<String>)> = Vec::new();
    proof {
        assert(entries(no_outputs@) =~= Seq::<(Seq<char>, Seq<Seq<char>>)>::empty());
    }
    let scope = Scope { inputs: &inputs, vars: &vars, outputs: &no_outputs, taskrun_allowed: false };
    validate_input_defaults(&def.inputs, &scope, &mut errs);
    validate_tasks(&def.tasks, &inputs, &vars, checks, &mut errs);
    proof {
        assert(problems(errs@) =~= flow_problems(*def, checks@));
    }
    errs
}

// ---------------------------------------------------- unique task ids

/// The ids of a list of tasks, in order.
pub open spec fn ids_of(ts: Seq<TaskDef>) -> Seq<Seq<char>> {
    ts.map_values(|t: TaskDef| t.id@)
}

/// A task's id, then the ids of its children when it is a parallel task.
pub open spec fn own_ids(t: TaskDef) -> Seq<Seq<char>> {
    seq![t.id@] + match t.kind {
        TaskKind::Parallel(par) => ids_of(par.tasks@),
        TaskKind::Plugin(_) => Seq::empty(),
    }
}

/// The ids of the tasks from the `i`th on, each followed by its children's.
pub open spec fn task_ids_from(ts: Seq<TaskDef>, i: int) -> Seq<Seq<char>>
    decreases ts.len() - i,
{
    if i < 0 || i >= ts.len() {
        Seq::empty()
    } else {
        own_ids(ts[i]) + task_ids_from(ts, i + 1)
    }
}

/// Whether no two entries of a sequence are equal.
pub open spec fn no_dup(s: Seq<Seq<char>>) -> bool {
    forall|a: int, b: int| 0 <= a < b < s.len() ==> s[a] != s[b]
}

proof fn lemma_no_dup_push(s: Seq<Seq<char>>, x: Seq<char>)
    requires
        no_dup(s),
        !s.contains(x),
    ensures
        no_dup(s.push(x)),
{
    let t = s.push(x);
    assert forall|a: int, b: int| 0 <= a < b < t.len() implies t[a] != t[b] by {
        if b == s.len() {
            assert(t[a] == s[a]);
        } else {
            assert(t[a] == s[a] && t[b] == s[b]);
        }
    }
}

proof fn lemma_register_fresh(id: Seq<char>, path: Seq<char>, ids: Seq<Seq<char>>)
    requires
        register_problems(id, path, ids).len() == 0,
    ensures
        !ids.contains(id),
{
    if ids.contains(id) {
        assert(one(path, "duplicate task id `"@ + id + "`"@).len() == 1);
    }
}

proof fn lemma_ids_after(ch: Seq<TaskDef>, j: int, ids: Seq<Seq<char>>)
    requires
        0 <= j <= ch.len(),
    ensures
        ids_after(ch, j, ids) == ids + ids_of(ch).skip(j),
    decreases ch.len() - j,
{
    if j < ch.len() {
        lemma_ids_after(ch, j + 1, ids.push(ch[j].id@));
        assert(ids.push(ch[j].id@) + ids_of(ch).skip(j + 1) =~= ids + ids_of(ch).skip(j));
    } else {
        assert(ids + ids_of(ch).skip(j) =~= ids);
    }
}

proof fn lemma_children_unique(
    ch: Seq<TaskDef>,
    j: int,
    base: Seq<char>,
    inputs: Seq<Seq<char>>,
    vars: Seq<Seq<char>>,
    sib: Seq<(Seq<char>, Seq<Seq<char>>)>,
    ids: Seq<Seq<char>>,
    k: int,
    checks: Seq<PluginCheck>,
)
    requires
        0 <= j <= ch.len(),
        no_dup(ids),
        children_from(ch, j, base, inputs, vars, sib, ids, k, checks).len() == 0,
    ensures
        no_dup(ids + ids_of(ch).skip(j)),
    decreases ch.len() - j,
{
    if j < ch.len() {
        let c = ch[j];
        let cb = indexed(base + ".tasks"@, j);
        lemma_register_fresh(c.id@, cb + ".id"@, ids);
        lemma_no_dup_push(ids, c.id@);
        match c.kind {
            TaskKind::Plugin(p) => {
                lemma_children_unique(ch, j + 1, base, inputs, vars, sib.push((c.id@, output_names(p.outputs@))), ids.push(c.id@), k + 1, checks);
            },
            TaskKind::Parallel(_) => {
                lemma_children_unique(ch, j + 1, base, inputs, vars, sib, ids.push(c.id@), k, checks);
            },
        }
        assert(ids.push(c.id@) + ids_of(ch).skip(j + 1) =~= ids + ids_of(ch).skip(j));
    } else {
        assert(ids + ids_of(ch).skip(j) =~= ids);
    }
}

#[verifier::spinoff_prover]
proof fn lemma_step_unique(
    t: TaskDef,
    i: int,
    inputs: Seq<Seq<char>>,
    vars: Seq<Seq<char>>,
    outs: Seq<(Seq<char>, Seq<Seq<char>>)>,
    ids: Seq<Seq<char>>,
    k: int,
    checks: Seq<PluginCheck>,
)
    requires
        no_dup(ids),
        step_problems(t, i, inputs, vars, outs, ids, k, checks).len() == 0,
    ensures
        step_ids(t, ids) == ids + own_ids(t),
        no_dup(step_ids(t, ids)),
{
    let b = indexed("tasks"@, i);
    lemma_register_fresh(t.id@, b + ".id"@, ids);
    lemma_no_dup_push(ids, t.id@);
    match t.kind {
        TaskKind::Plugin(_) => {
            assert(step_ids(t, ids) =~= ids + own_ids(t));
        },
        TaskKind::Parallel(par) => {
            let pp = parallel_problems(par, b, inputs, vars, outs, ids.push(t.id@), k, checks);
            assert(pp.len() == 0);
            assert(children_from(par.tasks@, 0, b, inputs, vars, outs, ids.push(t.id@), k, checks).len() == 0);
            lemma_children_unique(par.tasks@, 0, b, inputs, vars, outs, ids.push(t.id@), k, checks);
            lemma_ids_after(par.tasks@, 0, ids.push(t.id@));
            assert(ids_of(par.tasks@).skip(0) =~= ids_of(par.tasks@));
            assert(step_ids(t, ids) =~= ids + own_ids(t));
        },
    }
}

#[verifier::spinoff_prover]
proof fn lemma_tasks_unique(
    ts: Seq<TaskDef>,
    i: int,
    inputs: Seq<Seq<char>>,
    vars: Seq<Seq<char>>,
    outs: Seq<(Seq<char>, Seq<Seq<char>>)>,
    ids: Seq<Seq<char>>,
    k: int,
    checks: Seq<PluginCheck>,
)
    requires
        0 <= i <= ts.len(),
        no_dup(ids),
        tasks_from(ts, i, inputs, vars, outs, ids, k, checks).len() == 0,
    ensures
        no_dup(ids + task_ids_from(ts, i)),
    decreases ts.len() - i,
{
    if i < ts.len() {
        let t = ts[i];
        let rest = tasks_from(ts, i + 1, inputs, vars, step_outs(t, outs), step_ids(t, ids), k + step_count(t), checks);
        assert(tasks_from(ts, i, inputs, vars, outs, ids, k, checks)
            == step_problems(t, i, inputs, vars, outs, ids, k, checks) + rest);
        lemma_step_unique(t, i, inputs, vars, outs, ids, k, checks);
        lemma_tasks_unique(ts, i + 1, inputs, vars, step_outs(t, outs), step_ids(t, ids), k + step_count(t), checks);
        assert(task_ids_from(ts, i) == own_ids(t) + task_ids_from(ts, i + 1));
        assert(step_ids(t, ids) + task_ids_from(ts, i + 1) =~= ids + task_ids_from(ts, i));
    } else {
        assert(ids + task_ids_from(ts, i) =~= ids);
    }
}

/// A flow with no problem has unique task ids: no two of its tasks, the
/// children of its parallel tasks included, share an id. (`validate`
/// reports exactly these problems.)
pub proof fn lemma_valid_flow_ids_unique(def: FlowDefinition, checks: Seq<PluginCheck>)
    requires
        flow_problems(def, checks).len() == 0,
    ensures
        no_dup(task_ids_from(def.tasks@, 0)),
{
    let inputs = input_ids(def.inputs@);
    let vars = var_ids(def.variables@);
    lemma_tasks_unique(def.tasks@, 0, inputs, vars, Seq::empty(), Seq::empty(), 0, checks);
    assert(Seq::<Seq<char>>::empty() + task_ids_from(def.tasks@, 0) =~= task_ids_from(def.tasks@, 0));
}

// ----------------------------------------------------------- plugin tasks

/// The plugin children of a parallel task at `base`, from the `j`th on,
/// with their paths.
pub open spec fn child_plugins_from(ch: Seq<TaskDef>, j: int, base: Seq<char>) -> Seq<(Seq<char>, PluginTask)>
    decreases ch.len() - j,
{
    if j < 0 || j >= ch.len() {
        Seq::empty()
    } else {
        (match ch[j].kind {
            TaskKind::Plugin(p) => seq![(indexed(base + ".tasks"@, j), p)],
            TaskKind::Parallel(_) => Seq::empty(),
        }) + child_plugins_from(ch, j + 1, base)
    }
}

/// Every plugin task of a flow from the `i`th task on (children of
/// parallel tasks included) with its path, in definition order.
pub open spec fn plugins_with_paths(ts: Seq<TaskDef>, i: int) -> Seq<(Seq<char>, PluginTask)>
    decreases ts.len() - i,
{
    if i < 0 || i >= ts.len() {
        Seq::empty()
    } else {
        (match ts[i].kind {
            TaskKind::Plugin(p) => seq![(indexed("tasks"@, i), p)],
            TaskKind::Parallel(par) => child_plugins_from(par.tasks@, 0, indexed("tasks"@, i)),
        }) + plugins_with_paths(ts, i + 1)
    }
}

pub open spec fn path_views(v: Seq<(String, &PluginTask)>) -> Seq<(Seq<char>, PluginTask)> {
    v.map_values(|e: (String, &PluginTask)| (e.0@, *e.1))
}

proof fn lemma_child_plugins_len(ch: Seq<TaskDef>, j: int, base: Seq<char>)
    ensures
        child_plugins_from(ch, j, base).len() == plugins_from(ch, j),
    decreases ch.len() - j,
{
    if 0 <= j < ch.len() {
        lemma_child_plugins_len(ch, j + 1, base);
    }
}

/// There is one plugin task with its path per check `validate` takes.
pub proof fn lemma_plugins_with_paths_len(ts: Seq<TaskDef>, i: int)
    ensures
        plugins_with_paths(ts, i).len() == flow_plugins_from(ts, i),
    decreases ts.len() - i,
{
    if 0 <= i < ts.len() {
        lemma_plugins_with_paths_len(ts, i + 1);
        if let TaskKind::Parallel(par) = ts[i].kind {
            lemma_child_plugins_len(par.tasks@, 0, indexed("tasks"@, i));
        }
    }
}

/// Every plugin task of a flow, top-level and children of parallel tasks,
/// each with its path in the definition, in definition order.
pub fn plugin_tasks(def: &FlowDefinition) -> (r: Vec<(String, &PluginTask)>)
    ensures
        path_views(r@) == plugins_with_paths(def.tasks@, 0),
        r@.len() == flow_plugins_from(def.tasks@, 0),
{
    let ghost ts = def.tasks@;
    let mut out: Vec<(String, &PluginTask)> = Vec::new();
    let mut i: usize = 0;
    proof {
        assert(path_views(out@) + plugins_with_paths(ts, 0) =~= plugins_with_paths(ts, 0));
    }
    while i < def.tasks.len()
        invariant
            i <= ts.len(),
            ts == def.tasks@,
            path_views(out@) + plugins_with_paths(ts, i as int) == plugins_with_paths(ts, 0),
        decreases ts.len() - i,
    {
        let ghost before = path_views(out@);
        let b = indexed_path("tasks", i);
        match &def.tasks[i].kind {
            TaskKind::Plugin(p) => {
                out.push((b, p));
                proof {
                    assert(path_views(out@) =~= before.push((indexed("tasks"@, i as int), *p)));
                    assert(path_views(out@) + plugins_with_paths(ts, i + 1) =~= before + plugins_with_paths(ts, i as int));
                }
            },
            TaskKind::Parallel(par) => {
                let children_base = cat2(b.as_str(), ".tasks");
                let ghost ch = par.tasks@;
                let mut j: usize = 0;
                proof {
                    assert(path_views(out@) + child_plugins_from(ch, 0, b@) =~= before + child_plugins_from(ch, 0, b@));
                }
                while j < par.tasks.len()
                    invariant
                        j <= ch.len(),
                        ch == par.tasks@,
                        children_base@ == b@ + ".tasks"@,
                        path_views(out@) + child_plugins_from(ch, j as int, b@) == before + child_plugins_from(ch, 0, b@),
                    decreases ch.len() - j,
                {
                    let ghost mid = path_views(out@);
                    if let TaskKind::Plugin(p) = &par.tasks[j].kind {
                        out.push((indexed_path(children_base.as_str(), j), p));
                        proof {
                            assert(path_views(out@) =~= mid.push((indexed(b@ + ".tasks"@, j as int), *p)));
                        }
                    }
                    proof {
                        assert(path_views(out@) + child_plugins_from(ch, j + 1, b@) =~= mid + child_plugins_from(ch, j as int, b@));
                    }
                    j = j + 1;
                }
                proof {
                    assert(child_plugins_from(ch, j as int, b@) =~= Seq::<(Seq<char>, PluginTask)>::empty());
                    assert(path_views(out@) + plugins_with_paths(ts, i + 1) =~= before + plugins_with_paths(ts, i as int));
                }
            },
        }
        i = i + 1;
    }
    proof {
        assert(plugins_with_paths(ts, i as int) =~= Seq::<(Seq<char>, PluginTask)>::empty());
        assert(path_views(out@) =~= plugins_with_paths(ts, 0));
        lemma_plugins_with_paths_len(ts, 0);
    }
    out
}

// ------------------------------------------------------------- coverage

/// What the workers of a remote queue do not cover for a flow: version
/// skew (`errors`, blocking) and plugins no live worker provides
/// (`warnings`, advisory).
#[derive(Debug, Default, Clone, PartialEq, Eq)]
pub struct CoverageReport {
    pub errors: Vec<ValidationErr>,
    pub warnings: Vec<ValidationErr>,
}

/// Some worker on the queue advertises task type `t`.
pub open spec fn provides(caps: Seq<PluginCapability>, t: Seq<char>) -> bool {
    exists|i: int| 0 <= i < caps.len() && #[trigger] caps[i].type_id@ == t
}

/// The first version of `t` advertised on the queue that differs from `v`.
pub open spec fn first_skew(caps: Seq<PluginCapability>, t: Seq<char>, v: Seq<char>) -> Option<Seq<char>>
    decreases caps.len(),
{
    if caps.len() == 0 {
        None
    } else {
        match caps[0].version {
            Some(w) => if caps[0].type_id@ == t && w@ != v {
                Some(w@)
            } else {
                first_skew(caps.drop_first(), t, v)
            },
            None => first_skew(caps.drop_first(), t, v),
        }
    }
}

/// The version the server validated task type `t` against, if it knows one.
pub open spec fn server_version(reference: Seq<(String, String)>, t: Seq<char>) -> Option<Seq<char>>
    decreases reference.len(),
{
    if reference.len() == 0 {
        None
    } else if reference[0].0@ == t {
        Some(reference[0].1@)
    } else {
        server_version(reference.drop_first(), t)
    }
}

pub open spec fn missing_worker_message(queue: Seq<char>, t: Seq<char>) -> Seq<char> {
    "no live worker on queue `"@ + queue + "` provides task type `"@ + t
        + "`; runs will wait until one connects (or fail if it never does)"@
}

pub open spec fn skew_message(t: Seq<char>, server: Seq<char>, queue: Seq<char>, worker: Seq<char>) -> Seq<char> {
    "plugin `"@ + t + "` version mismatch: the server validated against `"@ + server
        + "`, but a worker on queue `"@ + queue + "` runs `"@ + worker + "`; align the plugin versions"@
}

/// Findings for the plugin tasks from the `i`th on, at most one per task
/// type, anchored at its first use: `(errors, warnings)`.
pub open spec fn coverage_from(
    entries: Seq<(Seq<char>, PluginTask)>,
    i: int,
    seen: Seq<Seq<char>>,
    queue: Seq<char>,
    reference: Seq<(String, String)>,
    caps: Seq<PluginCapability>,
) -> (Seq<Problem>, Seq<Problem>)
    decreases entries.len() - i,
{
    if i < 0 || i >= entries.len() {
        (Seq::empty(), Seq::empty())
    } else {
        let path = entries[i].0;
        let t = entries[i].1.type_id@;
        if seen.contains(t) {
            coverage_from(entries, i + 1, seen, queue, reference, caps)
        } else {
            let rest = coverage_from(entries, i + 1, seen.push(t), queue, reference, caps);
            if !provides(caps, t) {
                (rest.0, one(path, missing_worker_message(queue, t)) + rest.1)
            } else {
                match server_version(reference, t) {
                    Some(v) => match first_skew(caps, t, v) {
                        Some(w) => (one(path, skew_message(t, v, queue, w)) + rest.0, rest.1),
                        None => rest,
                    },
                    None => rest,
                }
            }
        }
    }
}

/// The coverage of a flow's plugin tasks by the workers of its queue; the
/// `local` queue is served in-process and has none to check.
pub open spec fn coverage(def: FlowDefinition, reference: Seq<(String, String)>, caps: Seq<PluginCapability>) -> (Seq<Problem>, Seq<Problem>) {
    if def.queue@ == "local"@ {
        (Seq::empty(), Seq::empty())
    } else {
        coverage_from(plugins_with_paths(def.tasks@, 0), 0, Seq::empty(), def.queue@, reference, caps)
    }
}

fn queue_provides(caps: &[PluginCapability], t: &str) -> (b: bool)
    ensures
        b == provides(caps@, t@),
{
    let mut i: usize = 0;
    while i < caps.len()
        invariant
            i <= caps@.len(),
            forall|k: int| 0 <= k < i ==> #[trigger] caps@[k].type_id@ != t@,
        decreases caps@.len() - i,
    {
        if str_eq(caps[i].type_id.as_str(), t) {
            return true;
        }
        i = i + 1;
    }
    false
}

fn find_skew(caps: &[PluginCapability], t: &str, v: &str) -> (r: Option<String>)
    ensures
        match r {
            Some(w) => first_skew(caps@, t@, v@) == Some(w@),
            None => first_skew(caps@, t@, v@) is None,
        },
{
    let mut i: usize = 0;
    proof {
        assert(caps@.skip(0) =~= caps@);
    }
    while i < caps.len()
        invariant
            i <= caps@.len(),
            first_skew(caps@, t@, v@) == first_skew(caps@.skip(i as int), t@, v@),
        decreases caps@.len() - i,
    {
        proof {
            assert(caps@.skip(i as int)[0] == caps@[i as int]);
            assert(caps@.skip(i as int).drop_first() =~= caps@.skip(i + 1));
        }
        if let Some(w) = &caps[i].version {
            if str_eq(caps[i].type_id.as_str(), t) && !str_eq(w.as_str(), v) {
                return Some(w.clone());
            }
        }
        i = i + 1;
    }
    None
}

fn find_version(reference: &Vec<(String, String)>, t: &str) -> (r: Option<String>)
    ensures
        match r {
            Some(v) => server_version(reference@, t@) == Some(v@),
            None => server_version(reference@, t@) is None,
        },
{
    let mut i: usize = 0;
    proof {
        assert(reference@.skip(0) =~= reference@);
    }
    while i < reference.len()
        invariant
            i <= reference@.len(),
            server_version(reference@, t@) == server_version(reference@.skip(i as int), t@),
        decreases reference@.len() - i,
    {
        proof {
            assert(reference@.skip(i as int)[0] == reference@[i as int]);
            assert(reference@.skip(i as int).drop_first() =~= reference@.skip(i + 1));
        }
        if str_eq(reference[i].0.as_str(), t) {
            return Some(reference[i].1.clone());
        }
        i = i + 1;
    }
    None
}

/// Cross-checks a flow's plugin tasks against the workers on its queue.
/// `reference` maps each task type to the version the server validated
/// against; `queue_caps` is what the workers on the queue advertise.
#[verifier::spinoff_prover]
pub fn coverage_report(
    def: &FlowDefinition,
    reference: &Vec<(String, String)>,
    queue_caps: &[PluginCapability],
) -> (r: CoverageReport)
    ensures
        (problems(r.errors@), problems(r.warnings@)) == coverage(*def, reference@, queue_caps@),
{
    let mut report = CoverageReport { errors: Vec::new(), warnings: Vec::new() };
    if str_eq(def.queue.as_str(), "local") {
        proof {
            assert(problems(report.errors@) =~= Seq::<Problem>::empty());
            assert(problems(report.warnings@) =~= Seq::<Problem>::empty());
        }
        return report;
    }
    let tasks = plugin_tasks(def);
    let ghost entries = path_views(tasks@);
    let ghost queue = def.queue@;
    let mut seen: Vec<String> = Vec::new();
    let mut i: usize = 0;
    proof {
        assert(names(seen@) =~= Seq::<Seq<char>>::empty());
    }
    while i < tasks.len()
        invariant
            i <= tasks@.len(),
            entries == path_views(tasks@),
            queue == def.queue@,
            ({
                let rest = coverage_from(entries, i as int, names(seen@), queue, reference@, queue_caps@);
                let all = coverage_from(entries, 0, Seq::empty(), queue, reference@, queue_caps@);
                &&& problems(report.errors@) + rest.0 == all.0
                &&& problems(report.warnings@) + rest.1 == all.1
            }),
        decreases tasks@.len() - i,
    {
        let ghost e0 = problems(report.errors@);
        let ghost w0 = problems(report.warnings@);
        let ghost seen0 = names(seen@);
        let path = &tasks[i].0;
        let t = tasks[i].1.type_id.as_str();
        proof {
            assert(entries[i as int] == (path@, *tasks@[i as int].1));
        }
        if !contains_name(&seen, t) {
            seen.push(t.to_owned());
            proof {
                assert(names(seen@) =~= seen0.push(t@));
            }
            if !queue_provides(queue_caps, t) {
                let m = cat5("no live worker on queue `", def.queue.as_str(), "` provides task type `", t, "`; runs will wait until one connects (or fail if it never does)");
                let ghost mv = m@;
                proof {
                    assert(mv =~= missing_worker_message(queue, t@));
                }
                push(&mut report.warnings, path.clone(), m);
            } else {
                match find_version(reference, t) {
                    Some(v) => match find_skew(queue_caps, t, v.as_str()) {
                        Some(w) => {
                            let mut m = cat5("plugin `", t, "` version mismatch: the server validated against `", v.as_str(), "`, but a worker on queue `");
                            push_str(&mut m, def.queue.as_str());
                            push_str(&mut m, "` runs `");
                            push_str(&mut m, w.as_str());
                            push_str(&mut m, "`; align the plugin versions");
                            let ghost mv = m@;
                            proof {
                                assert(mv =~= skew_message(t@, v@, queue, w@));
                            }
                            push(&mut report.errors, path.clone(), m);
                        },
                        None => {},
                    },
                    None => {},
                }
            }
        }
        proof {
            let rest1 = coverage_from(entries, i + 1, names(seen@), queue, reference@, queue_caps@);
            let rest0 = coverage_from(entries, i as int, seen0, queue, reference@, queue_caps@);
            assert(problems(report.errors@) + rest1.0 =~= e0 + rest0.0);
            assert(problems(report.warnings@) + rest1.1 =~= w0 + rest0.1);
        }
        i = i + 1;
    }
    proof {
        lemma_plugins_with_paths_len(def.tasks@, 0);
        let rest = coverage_from(entries, i as int, names(seen@), queue, reference@, queue_caps@);
        assert(rest.0 =~= Seq::<Problem>::empty());
        assert(problems(report.errors@) + rest.0 =~= problems(report.errors@));
        assert(problems(report.warnings@) + rest.1 =~= problems(report.warnings@));
    }
    report
}

} // verus!
