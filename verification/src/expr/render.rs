//! Rendering templates against a JSON context: reference lookup, the
//! `now()` reference, `dateAdd` filters, and the deep walk over a config.

use vstd::prelude::*;
use super::{DateUnit, ExprError, Filter, RefExpr, RefView, Segment, SegmentView, segments_view};
use super::canonical::{canon_path, canon_tail, canonical_segments, lemma_parsed_canonical};
use super::grammar::{
    Failure, digits_end, digits_value, is_digit, is_ident_start, is_word, lemma_digits_end_bounds,
    lemma_word_end_bounds, now_call, template, word_end,
};
use super::parse::{collect, is_digit_char, digits_to_u64, is_word_char, reports};
use crate::json::{
    Json, JsonView, get_index, get_key, items_view, json_text, json_view, lemma_items_view,
    lemma_members_view, members_view,
};
use crate::text::{byte_offset, decimal_i64, push_char, push_str, signed_decimal, str_eq};

verus! {

// ---------------------------------------------------------------- paths

/// One step of a reference path: an object key or an array index.
pub enum PathPart {
    Key(String),
    Index(u64),
}

/// What a [`PathPart`] denotes.
pub enum PartView {
    Key(Seq<char>),
    Index(int),
}

pub open spec fn part_view(p: PathPart) -> PartView {
    match p {
        PathPart::Key(k) => PartView::Key(k@),
        PathPart::Index(i) => PartView::Index(i as int),
    }
}

/// The steps of a canonical path from position `p` on.
pub open spec fn parts_from(s: Seq<char>, p: int) -> Seq<PartView>
    decreases s.len() - p,
{
    if p < 0 || p >= s.len() {
        Seq::empty()
    } else if s[p] == '[' {
        let e = digits_end(s, p + 1);
        proof {
            lemma_digits_end_bounds(s, p + 1);
        }
        let index = PartView::Index(digits_value(s.subrange(p + 1, e)));
        if e < s.len() {
            seq![index] + parts_from(s, e + 1)
        } else {
            seq![index]
        }
    } else {
        let k = if s[p] == '.' { p + 1 } else { p };
        let e = word_end(s, k);
        proof {
            lemma_word_end_bounds(s, k);
        }
        if e <= p {
            Seq::empty()
        } else {
            seq![PartView::Key(s.subrange(k, e))] + parts_from(s, e)
        }
    }
}

/// The steps a canonical path takes into the context.
pub open spec fn path_parts(s: Seq<char>) -> Seq<PartView> {
    parts_from(s, 0)
}

/// Following `parts` from `v`, when every step exists.
pub open spec fn lookup(v: JsonView, parts: Seq<PartView>) -> Option<JsonView>
    decreases parts.len(),
{
    if parts.len() == 0 {
        Some(v)
    } else {
        let next = match parts[0] {
            PartView::Key(k) => get_key(v, k),
            PartView::Index(i) => get_index(v, i),
        };
        match next {
            None => None,
            Some(w) => lookup(w, parts.drop_first()),
        }
    }
}

/// The steps of a canonical path, one at a time.
pub struct PathParts {
    chars: Vec<char>,
    pos: usize,
}

impl PathParts {
    /// The cursor stands at the head identifier or at a canonical tail.
    pub closed spec fn wf(&self) -> bool {
        let s = self.chars@;
        &&& self.pos <= s.len()
        &&& ({
            ||| canon_tail(s, self.pos as int)
            ||| (self.pos == 0 && s.len() > 0 && is_ident_start(s[0]) && canon_tail(s, word_end(s, 1)))
        })
    }

    /// The steps not taken yet.
    pub closed spec fn remaining(&self) -> Seq<PartView> {
        parts_from(self.chars@, self.pos as int)
    }

    pub fn new(path: &str) -> (r: PathParts)
        requires
            canon_path(path@),
            path@ != now_call(),
        ensures
            r.wf(),
            r.remaining() == path_parts(path@),
    {
        PathParts { chars: crate::text::chars_of(path), pos: 0 }
    }

    pub fn next(&mut self) -> (r: Option<PathPart>)
        requires
            old(self).wf(),
        ensures
            final(self).wf(),
            match r {
                None => old(self).remaining().len() == 0,
                Some(p) => old(self).remaining().len() > 0 && part_view(p) == old(self).remaining()[0]
                    && final(self).remaining() == old(self).remaining().drop_first(),
            },
    {
        let ghost s = self.chars@;
        let p = self.pos;
        if p >= self.chars.len() {
            return None;
        }
        if self.chars[p] == '[' {
            proof {
                lemma_digits_end_bounds(s, p + 1);
            }
            let mut e = p + 1;
            while e < self.chars.len() && is_digit_char(self.chars[e])
                invariant
                    p + 1 <= e <= s.len(),
                    self.chars@ == s,
                    digits_end(s, e as int) == digits_end(s, p + 1),
                    forall|k: int| p + 1 <= k < e ==> is_digit(#[trigger] s[k]),
                decreases s.len() - e,
            {
                e = e + 1;
            }
            let index = match digits_to_u64(self.chars.as_slice(), p + 1, e) {
                Some(v) => v,
                None => 0,
            };
            self.pos = if e < self.chars.len() { e + 1 } else { e };
            proof {
                let rest = parts_from(s, e as int + 1);
                if e < s.len() {
                    assert((seq![PartView::Index(index as int)] + rest).drop_first() =~= rest);
                } else {
                    assert(parts_from(s, e as int) =~= Seq::<PartView>::empty());
                }
            }
            Some(PathPart::Index(index))
        } else {
            let k = if self.chars[p] == '.' { p + 1 } else { p };
            proof {
                lemma_word_end_bounds(s, k as int);
            }
            let mut e = k;
            while e < self.chars.len() && is_word_char(self.chars[e])
                invariant
                    k <= e <= s.len(),
                    self.chars@ == s,
                    word_end(s, e as int) == word_end(s, k as int),
                decreases s.len() - e,
            {
                e = e + 1;
            }
            if e <= p {
                return None;
            }
            let key = collect(self.chars.as_slice(), k, e);
            self.pos = e;
            proof {
                let rest = parts_from(s, e as int);
                assert((seq![PartView::Key(key@)] + rest).drop_first() =~= rest);
            }
            Some(PathPart::Key(key))
        }
    }
}

/// The value a canonical path names in `ctx`, or the error naming the path.
pub open spec fn resolve(path: Seq<char>, ctx: JsonView, now: Seq<char>) -> Result<JsonView, Seq<char>> {
    if path == now_call() {
        Ok(JsonView::String(now))
    } else {
        match lookup(ctx, path_parts(path)) {
            Some(v) => Ok(v),
            None => Err("unknown reference: "@ + path),
        }
    }
}

fn unknown_reference(path: &str) -> (e: ExprError)
    ensures
        e.message@ == "unknown reference: "@ + path@,
        e.offset is None,
{
    let mut message = "unknown reference: ".to_owned();
    push_str(&mut message, path);
    ExprError::render(message)
}

/// The value a canonical path names in `ctx`; `now()` is the time `now`.
fn resolve_path(path: &str, ctx: &Json, now: &str) -> (r: Result<Json, ExprError>)
    requires
        canon_path(path@),
    ensures
        match r {
            Ok(v) => resolve(path@, json_view(*ctx), now@) == Ok::<_, Seq<char>>(json_view(v)),
            Err(e) => resolve(path@, json_view(*ctx), now@) == Err::<JsonView, _>(e.message@)
                && e.offset is None,
        },
{
    if str_eq(path, "now()") {
        return Ok(Json::String(now.to_owned()));
    }
    let mut parts = PathParts::new(path);
    let mut current: &Json = ctx;
    let ghost all = path_parts(path@);
    loop
        invariant
            parts.wf(),
            canon_path(path@),
            path@ != now_call(),
            lookup(json_view(*ctx), all) == lookup(json_view(*current), parts.remaining()),
            all == path_parts(path@),
        decreases parts.remaining().len(),
    {
        let ghost before = parts.remaining();
        match parts.next() {
            None => {
                return Ok(current.copy());
            },
            Some(part) => {
                let next = match &part {
                    PathPart::Key(key) => current.get_key(key.as_str()),
                    PathPart::Index(index) => current.get_index(*index),
                };
                match next {
                    None => {
                        return Err(unknown_reference(path));
                    },
                    Some(v) => {
                        current = v;
                    },
                }
            },
        }
    }
}

// ------------------------------------------------------------- dateAdd

/// The seconds of `n` units, when that span fits a `chrono::TimeDelta`
/// (at most `i64::MAX` milliseconds either way, in whole seconds).
pub open spec fn offset_seconds(n: int, unit: DateUnit) -> Option<int> {
    let secs = match unit {
        DateUnit::Days => n * 86400,
        DateUnit::Hours => n * 3600,
        DateUnit::Minutes => n * 60,
    };
    if -9_223_372_036_854_775 <= secs <= 9_223_372_036_854_775 {
        Some(secs)
    } else {
        None
    }
}

fn offset(n: i64, unit: DateUnit) -> (r: Option<i64>)
    ensures
        match r {
            Some(s) => offset_seconds(n as int, unit) == Some(s as int),
            None => offset_seconds(n as int, unit) is None,
        },
{
    let per: i64 = match unit {
        DateUnit::Days => 86400,
        DateUnit::Hours => 3600,
        DateUnit::Minutes => 60,
    };
    match n.checked_mul(per) {
        None => None,
        Some(secs) => if -9_223_372_036_854_775 <= secs && secs <= 9_223_372_036_854_775 {
            Some(secs)
        } else {
            None
        },
    }
}

/// What `chrono` makes of an RFC 3339 datetime: the instant as UTC seconds
/// since the epoch and nanoseconds, or the text of its parse error.
pub uninterp spec fn rfc3339_instant(text: Seq<char>) -> Result<(int, int), Seq<char>>;

/// The UTC instant (seconds since the epoch, nanoseconds) `seconds` after
/// the given one, by `chrono`; `None` when `chrono` represents neither.
pub uninterp spec fn later_instant(secs: int, nanos: int, seconds: int) -> Option<(int, int)>;

/// A UTC instant written by `chrono` in RFC 3339 with whole seconds and
/// `Z`; `None` when `chrono` cannot represent it.
pub uninterp spec fn rfc3339_text(secs: int, nanos: int) -> Option<Seq<char>>;

/// Parses an RFC 3339 datetime with `chrono::DateTime::parse_from_rfc3339`
/// and returns its UTC instant (seconds since the epoch, nanoseconds), or
/// the parse error's text. The result is named, not stated.
#[verifier::external_body]
pub(crate) fn parse_rfc3339(text: &str) -> (r: Result<(i64, u32), String>)
    ensures
        match r {
            Ok((secs, nanos)) => rfc3339_instant(text@) == Ok::<_, Seq<char>>((secs as int, nanos as int)),
            Err(e) => rfc3339_instant(text@) == Err::<(int, int), _>(e@),
        },
{
    match chrono::DateTime::parse_from_rfc3339(text) {
        Ok(t) => Ok((t.timestamp(), t.timestamp_subsec_nanos())),
        Err(e) => Err(e.to_string()),
    }
}

/// Adds whole seconds to a UTC instant with `chrono`'s
/// `DateTime::checked_add_signed`, the instant going in by
/// `DateTime::from_timestamp` and out by `timestamp` and
/// `timestamp_subsec_nanos`. `None` when `chrono` cannot represent the
/// instant or the sum. Which sums `chrono` represents is named, not
/// stated; outside a leap second (fewer than a billion nanoseconds) the
/// source adds the seconds and keeps the nanoseconds, which is stated.
#[verifier::external_body]
fn add_seconds(secs: i64, nanos: u32, seconds: i64) -> (r: Option<(i64, u32)>)
    requires
        -9_223_372_036_854_775 <= seconds <= 9_223_372_036_854_775,
    ensures
        match r {
            Some((s, n)) => later_instant(secs as int, nanos as int, seconds as int) == Some((s as int, n as int)),
            None => later_instant(secs as int, nanos as int, seconds as int) is None,
        },
        nanos < 1_000_000_000 ==> (r matches Some((s, n)) ==> s == secs + seconds && n == nanos),
{
    chrono::DateTime::from_timestamp(secs, nanos)
        .and_then(|t| t.checked_add_signed(chrono::TimeDelta::seconds(seconds)))
        .map(|t| (t.timestamp(), t.timestamp_subsec_nanos()))
}

/// Writes a UTC instant with `chrono`'s
/// `to_rfc3339_opts(SecondsFormat::Secs, true)`, the instant going in by
/// `DateTime::from_timestamp`. The text is named, not stated.
#[verifier::external_body]
fn write_rfc3339(secs: i64, nanos: u32) -> (r: Option<String>)
    ensures
        match r {
            Some(t) => rfc3339_text(secs as int, nanos as int) == Some(t@),
            None => rfc3339_text(secs as int, nanos as int) is None,
        },
{
    chrono::DateTime::from_timestamp(secs, nanos).map(|t| t.to_rfc3339_opts(chrono::SecondsFormat::Secs, true))
}

/// The current time from `chrono::Utc::now`, in RFC 3339 with whole seconds
/// and `Z`. Nothing is stated of it: it is the clock.
#[verifier::external_body]
pub(crate) fn now_rfc3339() -> String {
    chrono::Utc::now().to_rfc3339_opts(chrono::SecondsFormat::Secs, true)
}

/// `dateAdd(n, unit)` applied to a value.
pub open spec fn date_add_spec(v: JsonView, n: int, unit: DateUnit) -> Result<JsonView, Seq<char>> {
    match v {
        JsonView::String(input) => match rfc3339_instant(input) {
            Err(e) => Err("dateAdd: '"@ + input + "' is not an RFC3339 datetime: "@ + e),
            Ok((secs, nanos)) => match offset_seconds(n, unit) {
                None => Err("dateAdd: offset out of range: "@ + signed_decimal(n)),
                Some(d) => match later_instant(secs, nanos, d) {
                    None => Err("dateAdd: resulting datetime out of range: "@ + input),
                    Some((s, ns)) => match rfc3339_text(s, ns) {
                        None => Err("dateAdd: resulting datetime out of range: "@ + input),
                        Some(t) => Ok(JsonView::String(t)),
                    },
                },
            },
        },
        _ => Err("dateAdd: input must be an RFC3339 datetime string, got "@ + json_text(v)),
    }
}

fn date_add(value: Json, n: i64, unit: DateUnit) -> (r: Result<Json, ExprError>)
    ensures
        match r {
            Ok(v) => date_add_spec(json_view(value), n as int, unit) == Ok::<_, Seq<char>>(json_view(v)),
            Err(e) => date_add_spec(json_view(value), n as int, unit) == Err::<JsonView, _>(e.message@)
                && e.offset is None,
        },
{
    let input = match &value {
        Json::String(s) => s,
        _ => {
            let mut message = "dateAdd: input must be an RFC3339 datetime string, got ".to_owned();
            let text = value.to_text();
            push_str(&mut message, text.as_str());
            return Err(ExprError::render(message));
        },
    };
    let (secs, nanos) = match parse_rfc3339(input.as_str()) {
        Ok(instant) => instant,
        Err(e) => {
            let mut message = "dateAdd: '".to_owned();
            push_str(&mut message, input.as_str());
            push_str(&mut message, "' is not an RFC3339 datetime: ");
            push_str(&mut message, e.as_str());
            return Err(ExprError::render(message));
        },
    };
    let seconds = match offset(n, unit) {
        Some(s) => s,
        None => {
            let mut message = "dateAdd: offset out of range: ".to_owned();
            let digits = decimal_i64(n);
            push_str(&mut message, digits.as_str());
            return Err(ExprError::render(message));
        },
    };
    let text = match add_seconds(secs, nanos, seconds) {
        Some((s, ns)) => write_rfc3339(s, ns),
        None => None,
    };
    match text {
        Some(t) => Ok(Json::String(t)),
        None => {
            let mut message = "dateAdd: resulting datetime out of range: ".to_owned();
            push_str(&mut message, input.as_str());
            Err(ExprError::render(message))
        },
    }
}

// ------------------------------------------------------------- rendering

pub open spec fn apply_filters(v: JsonView, fs: Seq<Filter>) -> Result<JsonView, Seq<char>>
    decreases fs.len(),
{
    if fs.len() == 0 {
        Ok(v)
    } else {
        match apply_filters(v, fs.drop_last()) {
            Err(e) => Err(e),
            Ok(w) => match fs.last() {
                Filter::DateAdd { n, unit } => date_add_spec(w, n as int, unit),
            },
        }
    }
}

proof fn lemma_filters_fail(v: JsonView, fs: Seq<Filter>, k: int)
    requires
        0 <= k <= fs.len(),
        apply_filters(v, fs.take(k)) is Err,
    ensures
        apply_filters(v, fs) == apply_filters(v, fs.take(k)),
    decreases fs.len() - k,
{
    if k == fs.len() {
        assert(fs.take(k) =~= fs);
    } else {
        assert(fs.take(k + 1).drop_last() =~= fs.take(k));
        lemma_filters_fail(v, fs, k + 1);
    }
}

/// The value of an expression: its path's value with its filters applied.
pub open spec fn eval(r: RefView, ctx: JsonView, now: Seq<char>) -> Result<JsonView, Seq<char>> {
    match resolve(r.path, ctx, now) {
        Err(e) => Err(e),
        Ok(v) => apply_filters(v, r.filters),
    }
}

fn eval_ref(re: &RefExpr, ctx: &Json, now: &str) -> (r: Result<Json, ExprError>)
    requires
        canon_path(re.path@),
    ensures
        match r {
            Ok(v) => eval(re@, json_view(*ctx), now@) == Ok::<_, Seq<char>>(json_view(v)),
            Err(e) => eval(re@, json_view(*ctx), now@) == Err::<JsonView, _>(e.message@) && e.offset is None,
        },
{
    let mut value = resolve_path(re.path.as_str(), ctx, now)?;
    let ghost start = json_view(value);
    let mut i: usize = 0;
    proof {
        assert(re.filters@.take(0) =~= Seq::<Filter>::empty());
    }
    while i < re.filters.len()
        invariant
            i <= re.filters@.len(),
            resolve(re.path@, json_view(*ctx), now@) == Ok::<_, Seq<char>>(start),
            apply_filters(start, re.filters@.take(i as int)) == Ok::<_, Seq<char>>(json_view(value)),
        decreases re.filters@.len() - i,
    {
        proof {
            assert(re.filters@.take(i as int + 1).drop_last() =~= re.filters@.take(i as int));
        }
        let step = match re.filters[i] {
            Filter::DateAdd { n, unit } => date_add(value, n, unit),
        };
        match step {
            Ok(v) => {
                value = v;
            },
            Err(e) => {
                proof {
                    lemma_filters_fail(start, re.filters@, i as int + 1);
                }
                return Err(e);
            },
        }
        i = i + 1;
    }
    proof {
        assert(re.filters@.take(i as int) =~= re.filters@);
    }
    Ok(value)
}

/// How a value reads inside a larger string: strings as themselves, other
/// values as compact JSON.
pub open spec fn inline_text(v: JsonView) -> Seq<char> {
    match v {
        JsonView::String(s) => s,
        _ => json_text(v),
    }
}

/// The text of a sequence of segments, each expression replaced by its
/// value; the first failing expression decides the error.
pub open spec fn concat(segs: Seq<SegmentView>, ctx: JsonView, now: Seq<char>) -> Result<Seq<char>, Seq<char>>
    decreases segs.len(),
{
    if segs.len() == 0 {
        Ok(Seq::empty())
    } else {
        match concat(segs.drop_last(), ctx, now) {
            Err(e) => Err(e),
            Ok(s) => match segs.last() {
                SegmentView::Text(x) => Ok(s + x),
                SegmentView::Ref(r) => match eval(r, ctx, now) {
                    Err(e) => Err(e),
                    Ok(v) => Ok(s + inline_text(v)),
                },
            },
        }
    }
}

/// A template of exactly one expression keeps the type of its value; any
/// other template renders to a string.
pub open spec fn rendered(segs: Seq<SegmentView>, ctx: JsonView, now: Seq<char>) -> Result<JsonView, Seq<char>> {
    if segs.len() == 1 && segs[0] is Ref {
        eval(segs[0]->Ref_0, ctx, now)
    } else {
        match concat(segs, ctx, now) {
            Err(e) => Err(e),
            Ok(s) => Ok(JsonView::String(s)),
        }
    }
}

/// An error as a message and, for parse errors, a byte offset.
pub type ErrorView = (Seq<char>, Option<int>);

pub open spec fn error_view(e: ExprError) -> ErrorView {
    (e.message@, match e.offset { Some(o) => Some(o as int), None => None })
}

pub open spec fn outcome(r: Result<Json, ExprError>) -> Result<JsonView, ErrorView> {
    match r {
        Ok(v) => Ok(json_view(v)),
        Err(e) => Err(error_view(e)),
    }
}

/// Rendering template `t` against `ctx` at time `now`.
pub open spec fn render_result(t: Seq<char>, ctx: JsonView, now: Seq<char>) -> Result<JsonView, ErrorView> {
    match template(t) {
        Err(f) => Err((f.message, Some(byte_offset(t, f.pos)))),
        Ok(segs) => match rendered(segs, ctx, now) {
            Ok(v) => Ok(v),
            Err(m) => Err((m, None)),
        },
    }
}

proof fn lemma_concat_fail(segs: Seq<SegmentView>, ctx: JsonView, now: Seq<char>, k: int)
    requires
        0 <= k <= segs.len(),
        concat(segs.take(k), ctx, now) is Err,
    ensures
        concat(segs, ctx, now) == concat(segs.take(k), ctx, now),
    decreases segs.len() - k,
{
    if k == segs.len() {
        assert(segs.take(k) =~= segs);
    } else {
        assert(segs.take(k + 1).drop_last() =~= segs.take(k));
        lemma_concat_fail(segs, ctx, now, k + 1);
    }
}

fn push_inline(out: &mut String, v: &Json)
    ensures
        final(out)@ == old(out)@ + inline_text(json_view(*v)),
{
    match v {
        Json::String(s) => push_str(out, s.as_str()),
        _ => {
            let text = v.to_text();
            push_str(out, text.as_str());
        },
    }
}

/// Renders a template against a context, with `now` as the value of `now()`.
#[verifier::rlimit(40)]
pub fn render_at(template: &str, ctx: &Json, now: &str) -> (r: Result<Json, ExprError>)
    ensures
        outcome(r) == render_result(template@, json_view(*ctx), now@),
{
    let segments = match super::parse(template) {
        Ok(segs) => segs,
        Err(e) => {
            return Err(e);
        },
    };
    let ghost segs = segments_view(segments@);
    proof {
        lemma_parsed_canonical(template@, segs);
        assert(segs.len() == segments@.len());
    }
    if segments.len() == 1 {
        if let Segment::Ref(re) = &segments[0] {
            proof {
                assert(segs[0] == segments@[0]@);
            }
            return match eval_ref(re, ctx, now) {
                Ok(v) => Ok(v),
                Err(e) => Err(e),
            };
        }
    }
    let mut out = String::new();
    let mut i: usize = 0;
    proof {
        assert(segs.take(0) =~= Seq::<SegmentView>::empty());
        if segs.len() == 1 {
            assert(segs[0] == segments@[0]@);
        }
    }
    while i < segments.len()
        invariant
            i <= segments@.len(),
            segs == segments_view(segments@),
            segs.len() == segments@.len(),
            canonical_segments(segs),
            super::grammar::template(template@) == Ok::<_, Failure>(segs),
            !(segs.len() == 1 && segs[0] is Ref),
            concat(segs.take(i as int), json_view(*ctx), now@) == Ok::<_, Seq<char>>(out@),
        decreases segments@.len() - i,
    {
        proof {
            assert(segs.take(i as int + 1).drop_last() =~= segs.take(i as int));
            assert(segs[i as int] == segments@[i as int]@);
            assert(segs.take(i as int + 1).last() == segs[i as int]);
        }
        match &segments[i] {
            Segment::Text(text) => {
                push_str(&mut out, text.as_str());
            },
            Segment::Ref(re) => {
                match eval_ref(re, ctx, now) {
                    Ok(v) => push_inline(&mut out, &v),
                    Err(e) => {
                        proof {
                            lemma_concat_fail(segs, json_view(*ctx), now@, i as int + 1);
                        }
                        return Err(e);
                    },
                }
            },
        }
        i = i + 1;
    }
    proof {
        assert(segs.take(i as int) =~= segs);
    }
    Ok(Json::String(out))
}

/// Renders a template against a context. `now()` reads the clock once per
/// render.
pub fn render(template: &str, ctx: &Json) -> (r: Result<Json, ExprError>)
    ensures
        exists|now: Seq<char>| #[trigger] render_result(template@, json_view(*ctx), now) == outcome(r),
{
    let now = now_rfc3339();
    let r = render_at(template, ctx, now.as_str());
    assert(render_result(template@, json_view(*ctx), now@) == outcome(r));
    r
}

// ------------------------------------------------------------ configs

/// Rendering every string inside a config as a template; the first
/// failure, in order, decides the error.
pub open spec fn config_result(v: JsonView, ctx: JsonView, now: Seq<char>) -> Result<JsonView, ErrorView>
    decreases v, 0int,
{
    match v {
        JsonView::String(t) => render_result(t, ctx, now),
        JsonView::Array(items) => match config_items(items, ctx, now) {
            Err(e) => Err(e),
            Ok(rendered) => Ok(JsonView::Array(rendered)),
        },
        JsonView::Object(members) => match config_members(members, ctx, now) {
            Err(e) => Err(e),
            Ok(rendered) => Ok(JsonView::Object(rendered)),
        },
        _ => Ok(v),
    }
}

pub open spec fn config_items(items: Seq<JsonView>, ctx: JsonView, now: Seq<char>) -> Result<Seq<JsonView>, ErrorView>
    decreases items, 1int,
{
    if items.len() == 0 {
        Ok(Seq::empty())
    } else {
        match config_items(items.drop_last(), ctx, now) {
            Err(e) => Err(e),
            Ok(done) => match config_result(items.last(), ctx, now) {
                Err(e) => Err(e),
                Ok(r) => Ok(done.push(r)),
            },
        }
    }
}

pub open spec fn config_members(
    members: Seq<(Seq<char>, JsonView)>,
    ctx: JsonView,
    now: Seq<char>,
) -> Result<Seq<(Seq<char>, JsonView)>, ErrorView>
    decreases members, 1int,
{
    if members.len() == 0 {
        Ok(Seq::empty())
    } else {
        match config_members(members.drop_last(), ctx, now) {
            Err(e) => Err(e),
            Ok(done) => match config_result(members.last().1, ctx, now) {
                Err(e) => Err(e),
                Ok(r) => Ok(done.push((members.last().0, r))),
            },
        }
    }
}

proof fn lemma_config_items_fail(items: Seq<JsonView>, ctx: JsonView, now: Seq<char>, k: int)
    requires
        0 <= k <= items.len(),
        config_items(items.take(k), ctx, now) is Err,
    ensures
        config_items(items, ctx, now) == config_items(items.take(k), ctx, now),
    decreases items.len() - k,
{
    if k == items.len() {
        assert(items.take(k) =~= items);
    } else {
        assert(items.take(k + 1).drop_last() =~= items.take(k));
        lemma_config_items_fail(items, ctx, now, k + 1);
    }
}

proof fn lemma_config_members_fail(
    members: Seq<(Seq<char>, JsonView)>,
    ctx: JsonView,
    now: Seq<char>,
    k: int,
)
    requires
        0 <= k <= members.len(),
        config_members(members.take(k), ctx, now) is Err,
    ensures
        config_members(members, ctx, now) == config_members(members.take(k), ctx, now),
    decreases members.len() - k,
{
    if k == members.len() {
        assert(members.take(k) =~= members);
    } else {
        assert(members.take(k + 1).drop_last() =~= members.take(k));
        lemma_config_members_fail(members, ctx, now, k + 1);
    }
}

/// Renders every string of a config as a template, with `now` as the value
/// of `now()`; other values are kept.
pub fn render_config_at(config: &Json, ctx: &Json, now: &str) -> (r: Result<Json, ExprError>)
    ensures
        outcome(r) == config_result(json_view(*config), json_view(*ctx), now@),
    decreases config,
{
    match config {
        Json::String(t) => render_at(t.as_str(), ctx, now),
        Json::Array(items) => {
            let mut out: Vec<Json> = Vec::new();
            let mut i: usize = 0;
            proof {
                lemma_items_view(items@);
                assert(items_view(items@).take(0) =~= Seq::<JsonView>::empty());
            }
            while i < items.len()
                invariant
                    *config is Array,
                    config->Array_0 == *items,
                    i <= items@.len(),
                    items_view(items@).len() == items@.len(),
                    forall|k: int| 0 <= k < items@.len() ==> #[trigger] items_view(items@)[k] == json_view(items@[k]),
                    config_items(items_view(items@).take(i as int), json_view(*ctx), now@)
                        == Ok::<_, ErrorView>(items_view(out@)),
                decreases items@.len() - i,
            {
                let ghost vs = items_view(items@);
                proof {
                    assert(vs.take(i as int + 1).drop_last() =~= vs.take(i as int));
                    assert(vs.take(i as int + 1).last() == json_view(items@[i as int]));
                    assert(decreases_to!(*config => config->Array_0));
                    assert(decreases_to!(*items => items@));
                    assert(decreases_to!(items@ => items@[i as int]));
                }
                match render_config_at(&items[i], ctx, now) {
                    Ok(v) => {
                        let ghost before = out@;
                        out.push(v);
                        proof {
                            assert(out@.drop_last() =~= before);
                        }
                    },
                    Err(e) => {
                        proof {
                            lemma_config_items_fail(vs, json_view(*ctx), now@, i as int + 1);
                        }
                        return Err(e);
                    },
                }
                i = i + 1;
            }
            proof {
                assert(items_view(items@).take(i as int) =~= items_view(items@));
            }
            Ok(Json::Array(out))
        },
        Json::Object(members) => {
            let mut out: Vec<(String, Json)> = Vec::new();
            let mut i: usize = 0;
            proof {
                lemma_members_view(members@);
                assert(members_view(members@).take(0) =~= Seq::<(Seq<char>, JsonView)>::empty());
            }
            while i < members.len()
                invariant
                    *config is Object,
                    config->Object_0 == *members,
                    i <= members@.len(),
                    members_view(members@).len() == members@.len(),
                    forall|k: int| 0 <= k < members@.len() ==> #[trigger] members_view(members@)[k] == (
                        members@[k].0@,
                        json_view(members@[k].1),
                    ),
                    config_members(members_view(members@).take(i as int), json_view(*ctx), now@)
                        == Ok::<_, ErrorView>(members_view(out@)),
                decreases members@.len() - i,
            {
                let ghost vs = members_view(members@);
                proof {
                    assert(vs.take(i as int + 1).drop_last() =~= vs.take(i as int));
                    assert(vs.take(i as int + 1).last() == vs[i as int]);
                    assert(decreases_to!(*config => config->Object_0));
                    assert(decreases_to!(*members => members@));
                    assert(decreases_to!(members@ => members@[i as int]));
                    assert(decreases_to!(members@[i as int] => members@[i as int].1));
                }
                match render_config_at(&members[i].1, ctx, now) {
                    Ok(v) => {
                        let ghost before = out@;
                        out.push((members[i].0.clone(), v));
                        proof {
                            assert(out@.drop_last() =~= before);
                        }
                    },
                    Err(e) => {
                        proof {
                            lemma_config_members_fail(vs, json_view(*ctx), now@, i as int + 1);
                        }
                        return Err(e);
                    },
                }
                i = i + 1;
            }
            proof {
                assert(members_view(members@).take(i as int) =~= members_view(members@));
            }
            Ok(Json::Object(out))
        },
        _ => Ok(config.copy()),
    }
}

/// Whether every string inside `v` (object keys aside) renders.
pub open spec fn leaves_render(v: JsonView, ctx: JsonView, now: Seq<char>) -> bool
    decreases v, 0int,
{
    match v {
        JsonView::String(t) => render_result(t, ctx, now) is Ok,
        JsonView::Array(items) => items_render(items, ctx, now),
        JsonView::Object(members) => members_render(members, ctx, now),
        _ => true,
    }
}

pub open spec fn items_render(items: Seq<JsonView>, ctx: JsonView, now: Seq<char>) -> bool
    decreases items, 1int,
{
    items.len() == 0 || (items_render(items.drop_last(), ctx, now) && leaves_render(items.last(), ctx, now))
}

pub open spec fn members_render(members: Seq<(Seq<char>, JsonView)>, ctx: JsonView, now: Seq<char>) -> bool
    decreases members, 1int,
{
    members.len() == 0 || (members_render(members.drop_last(), ctx, now) && leaves_render(members.last().1, ctx, now))
}

/// Whether `r` has the shape of `v` (the same keys in the same order, the
/// same array lengths, the same numbers, booleans and nulls) with each
/// string of `v` replaced by what it renders to.
pub open spec fn leaves_rendered(v: JsonView, r: JsonView, ctx: JsonView, now: Seq<char>) -> bool
    decreases v, 0int,
{
    match v {
        JsonView::String(t) => render_result(t, ctx, now) == Ok::<JsonView, ErrorView>(r),
        JsonView::Array(items) => r is Array && items_rendered(items, r->Array_0, ctx, now),
        JsonView::Object(members) => r is Object && members_rendered(members, r->Object_0, ctx, now),
        _ => r == v,
    }
}

pub open spec fn items_rendered(items: Seq<JsonView>, rs: Seq<JsonView>, ctx: JsonView, now: Seq<char>) -> bool
    decreases items, 1int,
{
    rs.len() == items.len() && (items.len() == 0 || (
        items_rendered(items.drop_last(), rs.drop_last(), ctx, now)
        && leaves_rendered(items.last(), rs.last(), ctx, now)
    ))
}

pub open spec fn members_rendered(
    members: Seq<(Seq<char>, JsonView)>,
    rs: Seq<(Seq<char>, JsonView)>,
    ctx: JsonView,
    now: Seq<char>,
) -> bool
    decreases members, 1int,
{
    rs.len() == members.len() && (members.len() == 0 || (
        members_rendered(members.drop_last(), rs.drop_last(), ctx, now)
        && rs.last().0 == members.last().0
        && leaves_rendered(members.last().1, rs.last().1, ctx, now)
    ))
}

/// Whether some string inside `v` fails to render with error `e`.
pub open spec fn leaf_fails_with(v: JsonView, e: ErrorView, ctx: JsonView, now: Seq<char>) -> bool
    decreases v, 0int,
{
    match v {
        JsonView::String(t) => render_result(t, ctx, now) == Err::<JsonView, ErrorView>(e),
        JsonView::Array(items) => item_fails_with(items, e, ctx, now),
        JsonView::Object(members) => member_fails_with(members, e, ctx, now),
        _ => false,
    }
}

pub open spec fn item_fails_with(items: Seq<JsonView>, e: ErrorView, ctx: JsonView, now: Seq<char>) -> bool
    decreases items, 1int,
{
    items.len() > 0 && (item_fails_with(items.drop_last(), e, ctx, now) || leaf_fails_with(items.last(), e, ctx, now))
}

pub open spec fn member_fails_with(members: Seq<(Seq<char>, JsonView)>, e: ErrorView, ctx: JsonView, now: Seq<char>) -> bool
    decreases members, 1int,
{
    members.len() > 0 && (member_fails_with(members.drop_last(), e, ctx, now) || leaf_fails_with(members.last().1, e, ctx, now))
}

proof fn lemma_items_shape(items: Seq<JsonView>, ctx: JsonView, now: Seq<char>)
    ensures
        config_items(items, ctx, now) is Ok <==> items_render(items, ctx, now),
        config_items(items, ctx, now) matches Ok(rs) ==> items_rendered(items, rs, ctx, now),
        config_items(items, ctx, now) matches Err(e) ==> item_fails_with(items, e, ctx, now),
    decreases items, 1int,
{
    if items.len() > 0 {
        lemma_items_shape(items.drop_last(), ctx, now);
        lemma_render_config_shape(items.last(), ctx, now);
        if let Ok(rs) = config_items(items, ctx, now) {
            assert(rs.drop_last() =~= config_items(items.drop_last(), ctx, now)->Ok_0);
        }
    }
}

proof fn lemma_members_shape(members: Seq<(Seq<char>, JsonView)>, ctx: JsonView, now: Seq<char>)
    ensures
        config_members(members, ctx, now) is Ok <==> members_render(members, ctx, now),
        config_members(members, ctx, now) matches Ok(rs) ==> members_rendered(members, rs, ctx, now),
        config_members(members, ctx, now) matches Err(e) ==> member_fails_with(members, e, ctx, now),
    decreases members, 1int,
{
    if members.len() > 0 {
        lemma_members_shape(members.drop_last(), ctx, now);
        lemma_render_config_shape(members.last().1, ctx, now);
        if let Ok(rs) = config_members(members, ctx, now) {
            assert(rs.drop_last() =~= config_members(members.drop_last(), ctx, now)->Ok_0);
        }
    }
}

/// Rendering a config succeeds exactly when every string inside it
/// renders; the result then has the config's shape (keys, their order,
/// array lengths, numbers, booleans and nulls kept) with each string
/// replaced by what it renders to, which need not be a string; a failure
/// is the render error of one of the config's strings.
pub proof fn lemma_render_config_shape(config: JsonView, ctx: JsonView, now: Seq<char>)
    ensures
        config_result(config, ctx, now) is Ok <==> leaves_render(config, ctx, now),
        config_result(config, ctx, now) matches Ok(r) ==> leaves_rendered(config, r, ctx, now),
        config_result(config, ctx, now) matches Err(e) ==> leaf_fails_with(config, e, ctx, now),
    decreases config, 0int,
{
    match config {
        JsonView::Array(items) => lemma_items_shape(items, ctx, now),
        JsonView::Object(members) => lemma_members_shape(members, ctx, now),
        _ => {},
    }
}

/// Renders every string of a config as a template; other values are kept.
/// `now()` reads the clock once per call.
/// For the clock's reading `now`, the result is `Ok` exactly when every
/// string of the config renders; it then has the config's shape with each
/// string replaced by what it renders to, and a failure is the render
/// error of one of the config's strings.
pub fn render_config(config: &Json, ctx: &Json) -> (r: Result<Json, ExprError>)
    ensures
        exists|now: Seq<char>| {
            &&& #[trigger] config_result(json_view(*config), json_view(*ctx), now) == outcome(r)
            &&& (r is Ok <==> leaves_render(json_view(*config), json_view(*ctx), now))
            &&& (r matches Ok(v) ==> leaves_rendered(json_view(*config), json_view(v), json_view(*ctx), now))
            &&& (r matches Err(e) ==> leaf_fails_with(json_view(*config), error_view(e), json_view(*ctx), now))
        },
{
    let now = now_rfc3339();
    let r = render_config_at(config, ctx, now.as_str());
    proof {
        lemma_render_config_shape(json_view(*config), json_view(*ctx), now@);
    }
    assert(config_result(json_view(*config), json_view(*ctx), now@) == outcome(r));
    r
}

} // verus!
