//! Expression engine: template parsing, canonical serialization, and the
//! references a template makes.
//!
//! A template is a sequence of literal text and `{{ <expr> }}` segments:
//!
//! ```text
//! expr    = path { "|" filter }
//! path    = "now()" | ident { "." ident | "[" uint "]" }
//! ident   = (ALPHA | "_") { ALPHA | DIGIT | "_" }
//! filter  = "dateAdd" "(" int "," "'" unit "'" ")"
//! unit    = "DAYS" | "HOURS" | "MINUTES"
//! ```
//!
//! Blanks inside `{{ }}` are insignificant; [`serialize`] writes the
//! single-space form `{{ path | filter(args) }}`.

use vstd::prelude::*;
use crate::text::{decimal_i64, push_str, signed_decimal};
use grammar::Failure;
use parse::reports;

pub mod grammar;
pub mod parse;
pub mod canonical;
pub mod render;
pub mod redact;

verus! {

/// Unit argument of `dateAdd`.
#[derive(Debug, Clone, Copy, PartialEq, Eq, Structural)]
pub enum DateUnit {
    Days,
    Hours,
    Minutes,
}

/// A filter applied to a reference value.
#[derive(Debug, Clone, Copy, PartialEq, Eq, Structural)]
pub enum Filter {
    DateAdd { n: i64, unit: DateUnit },
}

/// A `{{ path | filters... }}` expression. `path` is kept in its canonical
/// spelling (`outputs.discover.ids[0].name`, or `now()`).
#[derive(Debug, Clone, PartialEq, Eq)]
pub struct RefExpr {
    pub path: String,
    pub filters: Vec<Filter>,
}

/// One piece of a parsed template: literal text or a `{{ ... }}` expression.
#[derive(Debug, Clone, PartialEq, Eq)]
pub enum Segment {
    Text(String),
    Ref(RefExpr),
}

/// Error from parsing or rendering a template. `offset` is the byte offset
/// into the template for parse errors, `None` for render-time errors.
#[derive(Debug, Clone, PartialEq, Eq)]
pub struct ExprError {
    pub message: String,
    pub offset: Option<usize>,
}

/// What a [`RefExpr`] denotes.
pub struct RefView {
    pub path: Seq<char>,
    pub filters: Seq<Filter>,
}

/// What a [`Segment`] denotes.
pub enum SegmentView {
    Text(Seq<char>),
    Ref(RefView),
}

impl View for RefExpr {
    type V = RefView;

    open spec fn view(&self) -> RefView {
        RefView { path: self.path@, filters: self.filters@ }
    }
}

impl View for Segment {
    type V = SegmentView;

    open spec fn view(&self) -> SegmentView {
        match self {
            Segment::Text(s) => SegmentView::Text(s@),
            Segment::Ref(r) => SegmentView::Ref(r@),
        }
    }
}

/// The views of a sequence of segments.
pub open spec fn segments_view(segs: Seq<Segment>) -> Seq<SegmentView> {
    segs.map_values(|s: Segment| s@)
}

impl DateUnit {
    /// The spelling of the unit inside `dateAdd(n, '...')`.
    pub open spec fn spelling(self) -> Seq<char> {
        match self {
            DateUnit::Days => "DAYS"@,
            DateUnit::Hours => "HOURS"@,
            DateUnit::Minutes => "MINUTES"@,
        }
    }

    pub fn as_str(self) -> (s: &'static str)
        ensures
            s@ == self.spelling(),
    {
        match self {
            DateUnit::Days => "DAYS",
            DateUnit::Hours => "HOURS",
            DateUnit::Minutes => "MINUTES",
        }
    }
}

/// How an error reads: its message, then ` (at byte offset N)` when it
/// points at an offset.
pub open spec fn error_text(message: Seq<char>, offset: Option<nat>) -> Seq<char> {
    match offset {
        Some(o) => message + " (at byte offset "@ + crate::text::decimal(o) + ")"@,
        None => message,
    }
}

impl ExprError {
    /// A parse error pointing at a byte offset of the template.
    pub fn at(message: String, offset: usize) -> (e: ExprError)
        ensures
            e.message == message,
            e.offset == Some(offset),
    {
        ExprError { message, offset: Some(offset) }
    }

    /// The error as text: the message, and the byte offset when there is one.
    pub fn to_string(&self) -> (s: String)
        ensures
            s@ == error_text(self.message@, match self.offset { Some(o) => Some(o as nat), None => None }),
    {
        let mut s = self.message.clone();
        if let Some(o) = self.offset {
            push_str(&mut s, " (at byte offset ");
            let digits = crate::text::decimal_u64(o as u64);
            push_str(&mut s, digits.as_str());
            push_str(&mut s, ")");
        }
        s
    }

    /// A render-time error, which points at no offset.
    pub fn render(message: String) -> (e: ExprError)
        ensures
            e.message == message,
            e.offset.is_none(),
    {
        ExprError { message, offset: None }
    }
}

// ------------------------------------------------------------- serializing

/// The canonical text of one filter: ` | dateAdd(n, 'UNIT')`.
pub open spec fn filter_text(f: Filter) -> Seq<char> {
    match f {
        Filter::DateAdd { n, unit } => " | dateAdd("@ + signed_decimal(n as int) + ", '"@
            + unit.spelling() + "')"@,
    }
}

pub open spec fn filters_text(fs: Seq<Filter>) -> Seq<char>
    decreases fs.len(),
{
    if fs.len() == 0 {
        Seq::empty()
    } else {
        filters_text(fs.drop_last()) + filter_text(fs.last())
    }
}

/// The canonical text of an expression: `{{ path | filter... }}`.
pub open spec fn ref_text(r: RefView) -> Seq<char> {
    "{{ "@ + r.path + filters_text(r.filters) + " }}"@
}

pub open spec fn segment_text(s: SegmentView) -> Seq<char> {
    match s {
        SegmentView::Text(t) => t,
        SegmentView::Ref(r) => ref_text(r),
    }
}

/// The canonical template text of a sequence of segments.
pub open spec fn segments_text(segs: Seq<SegmentView>) -> Seq<char>
    decreases segs.len(),
{
    if segs.len() == 0 {
        Seq::empty()
    } else {
        segments_text(segs.drop_last()) + segment_text(segs.last())
    }
}

/// The paths that a template's references read, in order, duplicates kept;
/// `now()` reads nothing and is left out.
pub open spec fn reference_paths(segs: Seq<SegmentView>) -> Seq<Seq<char>>
    decreases segs.len(),
{
    if segs.len() == 0 {
        Seq::empty()
    } else {
        let rest = reference_paths(segs.drop_last());
        match segs.last() {
            SegmentView::Ref(r) => if r.path == grammar::now_call() {
                rest
            } else {
                rest.push(r.path)
            },
            SegmentView::Text(_) => rest,
        }
    }
}

/// Parse a template into segments. Fails, with the byte offset of the
/// offending character, on a malformed `{{ }}` expression.
pub fn parse(template: &str) -> (r: Result<Vec<Segment>, ExprError>)
    ensures
        match r {
            Ok(segs) => grammar::template(template@) == Ok::<_, Failure>(segments_view(segs@)),
            Err(e) => grammar::template(template@) matches Err(f) && reports(e, template@, f),
        },
{
    parse::parse_template(template)
}

fn push_filter(out: &mut String, f: Filter)
    ensures
        final(out)@ == old(out)@ + filter_text(f),
{
    match f {
        Filter::DateAdd { n, unit } => {
            let ghost start = out@;
            push_str(out, " | dateAdd(");
            let digits = decimal_i64(n);
            push_str(out, digits.as_str());
            push_str(out, ", '");
            push_str(out, unit.as_str());
            push_str(out, "')");
            proof {
                assert(out@ =~= start + filter_text(f));
            }
        },
    }
}

/// Serialize segments back to template text in canonical form.
pub fn serialize(segments: &[Segment]) -> (out: String)
    ensures
        out@ == segments_text(segments_view(segments@)),
{
    let mut out = String::new();
    let mut i: usize = 0;
    while i < segments.len()
        invariant
            i <= segments@.len(),
            out@ == segments_text(segments_view(segments@.take(i as int))),
        decreases segments@.len() - i,
    {
        proof {
            assert(segments_view(segments@.take(i as int + 1)).drop_last()
                =~= segments_view(segments@.take(i as int)));
        }
        match &segments[i] {
            Segment::Text(text) => {
                push_str(&mut out, text.as_str());
            },
            Segment::Ref(re) => {
                let ghost before = out@;
                push_str(&mut out, "{{ ");
                push_str(&mut out, re.path.as_str());
                let mut k: usize = 0;
                while k < re.filters.len()
                    invariant
                        k <= re.filters@.len(),
                        out@ == before + "{{ "@ + re.path@ + filters_text(re.filters@.take(k as int)),
                    decreases re.filters@.len() - k,
                {
                    proof {
                        assert(re.filters@.take(k as int + 1).drop_last() =~= re.filters@.take(k as int));
                    }
                    push_filter(&mut out, re.filters[k]);
                    k = k + 1;
                    proof {
                        assert(out@ =~= before + "{{ "@ + re.path@ + filters_text(re.filters@.take(k as int)));
                    }
                }
                push_str(&mut out, " }}");
                proof {
                    assert(re.filters@.take(k as int) =~= re.filters@);
                    assert(out@ =~= before + ref_text(re@));
                }
            },
        }
        i = i + 1;
    }
    proof {
        assert(segments@.take(i as int) =~= segments@);
    }
    out
}

/// The reference paths of a template (filters stripped), in order of
/// appearance, duplicates included; `now()` is left out.
pub fn referenced_paths(template: &str) -> (r: Result<Vec<String>, ExprError>)
    ensures
        match r {
            Ok(paths) => grammar::template(template@) matches Ok(segs) && paths@.map_values(
                |p: String| p@,
            ) == reference_paths(segs),
            Err(e) => grammar::template(template@) matches Err(f) && reports(e, template@, f),
        },
{
    let segments = parse(template)?;
    let mut paths: Vec<String> = Vec::new();
    let mut i: usize = 0;
    let now = "now()".to_owned();
    while i < segments.len()
        invariant
            i <= segments@.len(),
            now@ == grammar::now_call(),
            paths@.map_values(|p: String| p@) == reference_paths(
                segments_view(segments@.take(i as int)),
            ),
        decreases segments@.len() - i,
    {
        proof {
            assert(segments_view(segments@.take(i as int + 1)).drop_last()
                =~= segments_view(segments@.take(i as int)));
        }
        let ghost before = paths@.map_values(|p: String| p@);
        match &segments[i] {
            Segment::Ref(re) => {
                if re.path != now {
                    paths.push(re.path.clone());
                    proof {
                        assert(paths@.map_values(|p: String| p@) =~= before.push(re.path@));
                    }
                }
            },
            Segment::Text(_) => {},
        }
        i = i + 1;
    }
    proof {
        assert(segments@.take(i as int) =~= segments@);
    }
    Ok(paths)
}

} // verus!
