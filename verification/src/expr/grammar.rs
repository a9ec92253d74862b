//! The template grammar as mathematics: what parsing a template means,
//! stated over its sequence of characters.
//!
//! Every function here reads the template `t` from a character position
//! and answers either with a value and the position just after it, or with
//! a [`Failure`]: a message and the character position it points at.
//! The executable parser in `parse.rs` is proved to compute exactly these.

use vstd::prelude::*;
use super::{DateUnit, Filter, RefView, SegmentView};
use crate::text::decimal;

verus! {

/// Why parsing stopped, and at which character.
pub struct Failure {
    pub message: Seq<char>,
    pub pos: int,
}

/// A parsed value with the position just after it, or the failure.
pub type Parsed<T> = Result<(T, int), Failure>;

pub open spec fn fail<T>(message: Seq<char>, pos: int) -> Parsed<T> {
    Err(Failure { message, pos })
}

pub open spec fn expected(what: Seq<char>) -> Seq<char> {
    "expected "@ + what
}

// ---------------------------------------------------------------- characters

pub open spec fn is_ws(c: char) -> bool {
    c == ' ' || c == '\t' || c == '\r' || c == '\n'
}

pub open spec fn is_alpha(c: char) -> bool {
    ('a' <= c && c <= 'z') || ('A' <= c && c <= 'Z')
}

pub open spec fn is_digit(c: char) -> bool {
    '0' <= c && c <= '9'
}

pub open spec fn is_ident_start(c: char) -> bool {
    is_alpha(c) || c == '_'
}

pub open spec fn is_word(c: char) -> bool {
    is_alpha(c) || is_digit(c) || c == '_'
}

pub open spec fn digit_value(c: char) -> int {
    (c as int) - ('0' as int)
}

/// The character at `p` is `c`.
pub open spec fn at(t: Seq<char>, p: int, c: char) -> bool {
    0 <= p < t.len() && t[p] == c
}

pub open spec fn at_close(t: Seq<char>, p: int) -> bool {
    at(t, p, '}') && at(t, p + 1, '}')
}

pub open spec fn skip_ws(t: Seq<char>, p: int) -> int
    decreases t.len() - p,
{
    if 0 <= p < t.len() && is_ws(t[p]) {
        skip_ws(t, p + 1)
    } else {
        p
    }
}

/// End of the run of word characters starting at `p`.
pub open spec fn word_end(t: Seq<char>, p: int) -> int
    decreases t.len() - p,
{
    if 0 <= p < t.len() && is_word(t[p]) {
        word_end(t, p + 1)
    } else {
        p
    }
}

/// End of the run of decimal digits starting at `p`.
pub open spec fn digits_end(t: Seq<char>, p: int) -> int
    decreases t.len() - p,
{
    if 0 <= p < t.len() && is_digit(t[p]) {
        digits_end(t, p + 1)
    } else {
        p
    }
}

/// End of the run of characters other than `'` starting at `p`.
pub open spec fn unquoted_end(t: Seq<char>, p: int) -> int
    decreases t.len() - p,
{
    if 0 <= p < t.len() && t[p] != '\'' {
        unquoted_end(t, p + 1)
    } else {
        p
    }
}

/// The number a string of decimal digits denotes.
pub open spec fn digits_value(s: Seq<char>) -> int
    decreases s.len(),
{
    if s.len() == 0 {
        0
    } else {
        digits_value(s.drop_last()) * 10 + digit_value(s.last())
    }
}

// ------------------------------------------------------------------ messages

pub open spec fn msg_ident() -> Seq<char> {
    "expected identifier (letters, digits, '_'; must not start with a digit)"@
}

pub open spec fn msg_unknown_function(head: Seq<char>) -> Seq<char> {
    "unknown function: "@ + head + " (only 'now()' is supported)"@
}

pub open spec fn msg_unknown_filter(name: Seq<char>) -> Seq<char> {
    "unknown filter: "@ + name + " (only 'dateAdd' is supported)"@
}

pub open spec fn msg_unknown_unit(unit: Seq<char>) -> Seq<char> {
    "unknown date unit: '"@ + unit + "' (expected 'DAYS', 'HOURS', or 'MINUTES')"@
}

pub open spec fn now_name() -> Seq<char> {
    "now"@
}

/// The canonical spelling of the `now()` reference.
pub open spec fn now_call() -> Seq<char> {
    "now()"@
}

pub open spec fn date_add_name() -> Seq<char> {
    "dateAdd"@
}

// ------------------------------------------------------------------- grammar

/// `ident = (ALPHA | "_") { ALPHA | DIGIT | "_" }`
pub open spec fn ident(t: Seq<char>, p: int) -> Parsed<Seq<char>> {
    if 0 <= p < t.len() && is_ident_start(t[p]) {
        let e = word_end(t, p + 1);
        Ok((t.subrange(p, e), e))
    } else {
        fail(msg_ident(), p)
    }
}

/// An array index: decimal digits denoting a `u64`.
pub open spec fn uint(t: Seq<char>, p: int) -> Parsed<int> {
    let e = digits_end(t, p);
    if e == p {
        fail("expected array index (unsigned integer)"@, p)
    } else if digits_value(t.subrange(p, e)) > u64::MAX {
        fail("array index out of range"@, p)
    } else {
        Ok((digits_value(t.subrange(p, e)), e))
    }
}

/// A `dateAdd` count: an optional `-` and decimal digits denoting an `i64`.
pub open spec fn integer(t: Seq<char>, p: int) -> Parsed<int> {
    let neg = at(t, p, '-');
    let d = if neg { p + 1 } else { p };
    let e = digits_end(t, d);
    let v = digits_value(t.subrange(d, e));
    if e == d {
        fail("expected integer"@, p)
    } else if neg && v > 0x8000_0000_0000_0000 {
        fail("integer out of range"@, p)
    } else if !neg && v > i64::MAX {
        fail("integer out of range"@, p)
    } else {
        Ok((if neg { -v } else { v }, e))
    }
}

pub open spec fn unit_named(u: Seq<char>) -> Option<DateUnit> {
    if u == "DAYS"@ {
        Some(DateUnit::Days)
    } else if u == "HOURS"@ {
        Some(DateUnit::Hours)
    } else if u == "MINUTES"@ {
        Some(DateUnit::Minutes)
    } else {
        None
    }
}

/// `"'" unit "'"`
pub open spec fn date_unit(t: Seq<char>, p: int) -> Parsed<DateUnit> {
    if !at(t, p, '\'') {
        fail(expected("single-quoted unit ('DAYS', 'HOURS', or 'MINUTES')"@), p)
    } else {
        let e = unquoted_end(t, p + 1);
        if e >= t.len() {
            fail("unterminated unit string"@, p)
        } else {
            match unit_named(t.subrange(p + 1, e)) {
                Some(u) => Ok((u, e + 1)),
                None => fail(msg_unknown_unit(t.subrange(p + 1, e)), p),
            }
        }
    }
}

/// `"dateAdd" "(" int "," "'" unit "'" ")"`, blanks allowed between tokens.
pub open spec fn filter(t: Seq<char>, p: int) -> Parsed<Filter> {
    match ident(t, p) {
        Err(f) => Err(f),
        Ok((name, q)) => if name != date_add_name() {
            fail(msg_unknown_filter(name), p)
        } else {
            let a = skip_ws(t, q);
            if !at(t, a, '(') {
                fail(expected("'(' after filter name"@), a)
            } else {
                match integer(t, skip_ws(t, a + 1)) {
                    Err(f) => Err(f),
                    Ok((n, c)) => {
                        let d = skip_ws(t, c);
                        if !at(t, d, ',') {
                            fail(expected("',' between dateAdd arguments"@), d)
                        } else {
                            match date_unit(t, skip_ws(t, d + 1)) {
                                Err(f) => Err(f),
                                Ok((unit, g)) => {
                                    let h = skip_ws(t, g);
                                    if !at(t, h, ')') {
                                        fail(expected("')' after filter arguments"@), h)
                                    } else {
                                        Ok((Filter::DateAdd { n: n as i64, unit }, h + 1))
                                    }
                                },
                            }
                        }
                    },
                }
            }
        },
    }
}

/// `{ "." ident | "[" uint "]" }`, appended in canonical spelling to `acc`.
pub open spec fn path_tail(t: Seq<char>, p: int, acc: Seq<char>) -> Parsed<Seq<char>>
    decreases t.len() - p,
{
    if at(t, p, '.') {
        match ident(t, p + 1) {
            Err(f) => Err(f),
            Ok((name, q)) => {
                proof {
                    lemma_ident_bounds(t, p + 1);
                }
                path_tail(t, q, acc + seq!['.'] + name)
            },
        }
    } else if at(t, p, '[') {
        match uint(t, p + 1) {
            Err(f) => Err(f),
            Ok((index, q)) => {
                proof {
                    lemma_uint_bounds(t, p + 1);
                }
                if at(t, q, ']') {
                    path_tail(t, q + 1, acc + seq!['['] + decimal(index as nat) + seq![']'])
                } else {
                    fail(expected("']' after array index"@), q)
                }
            },
        }
    } else {
        Ok((acc, p))
    }
}

/// `path = "now()" | ident { "." ident | "[" uint "]" }`, in canonical spelling.
pub open spec fn path(t: Seq<char>, p: int) -> Parsed<Seq<char>> {
    match ident(t, p) {
        Err(f) => Err(f),
        Ok((head, q)) => if at(t, q, '(') {
            if head != now_name() {
                fail(msg_unknown_function(head), p)
            } else {
                let r = skip_ws(t, q + 1);
                if at(t, r, ')') {
                    Ok((now_call(), r + 1))
                } else {
                    fail(expected("')' after 'now('"@), r)
                }
            }
        } else {
            path_tail(t, q, head)
        },
    }
}

/// The filters of an expression opened at `open`, up to and including the
/// closing `}}`.
pub open spec fn filters(
    t: Seq<char>,
    p: int,
    open: int,
    path: Seq<char>,
    fs: Seq<Filter>,
) -> Parsed<RefView>
    decreases t.len() - p,
{
    if at(t, p, '|') {
        match filter(t, skip_ws(t, p + 1)) {
            Err(f) => Err(f),
            Ok((f, q)) => {
                proof {
                    lemma_skip_ws_bounds(t, p + 1);
                    lemma_filter_bounds(t, skip_ws(t, p + 1));
                    lemma_skip_ws_bounds(t, q);
                }
                filters(t, skip_ws(t, q), open, path, fs.push(f))
            },
        }
    } else if at_close(t, p) {
        Ok((RefView { path, filters: fs }, p + 2))
    } else if p >= t.len() {
        fail("unclosed '{{'"@, open)
    } else {
        fail("expected '}}'"@, p)
    }
}

/// The expression whose `{{` starts at `open`.
pub open spec fn expr(t: Seq<char>, open: int) -> Parsed<RefView> {
    let p = skip_ws(t, open + 2);
    if at_close(t, p) {
        fail("empty expression in '{{ }}'"@, open)
    } else if p >= t.len() {
        fail("unclosed '{{'"@, open)
    } else {
        match path(t, p) {
            Err(f) => Err(f),
            Ok((path, q)) => filters(t, skip_ws(t, q), open, path, seq![]),
        }
    }
}

/// `segs` followed by the pending literal text, if there is any.
pub open spec fn flush(segs: Seq<SegmentView>, text: Seq<char>) -> Seq<SegmentView> {
    if text.len() > 0 {
        segs.push(SegmentView::Text(text))
    } else {
        segs
    }
}

/// The segments of `t` from position `i` on, given the segments `segs`
/// before it and the literal text `text` not yet closed off.
pub open spec fn template_from(
    t: Seq<char>,
    i: int,
    text: Seq<char>,
    segs: Seq<SegmentView>,
) -> Result<Seq<SegmentView>, Failure>
    decreases t.len() - i,
{
    if i < 0 || i >= t.len() {
        Ok(flush(segs, text))
    } else if t[i] == '{' && at(t, i + 1, '{') {
        match expr(t, i) {
            Err(f) => Err(f),
            Ok((r, q)) => {
                proof {
                    lemma_expr_bounds(t, i);
                }
                template_from(t, q, seq![], flush(segs, text).push(SegmentView::Ref(r)))
            },
        }
    } else {
        template_from(t, i + 1, text.push(t[i]), segs)
    }
}

/// The segments of a whole template.
pub open spec fn template(t: Seq<char>) -> Result<Seq<SegmentView>, Failure> {
    template_from(t, 0, seq![], seq![])
}

pub proof fn lemma_digits_value_nonneg(s: Seq<char>)
    requires
        forall|j: int| 0 <= j < s.len() ==> is_digit(#[trigger] s[j]),
    ensures
        digits_value(s) >= 0,
    decreases s.len(),
{
    if s.len() > 0 {
        lemma_digits_value_nonneg(s.drop_last());
        assert(is_digit(s[s.len() - 1]));
    }
}

// -------------------------------------------------------- positions advance

pub proof fn lemma_skip_ws_bounds(t: Seq<char>, p: int)
    requires
        0 <= p <= t.len(),
    ensures
        p <= skip_ws(t, p) <= t.len(),
    decreases t.len() - p,
{
    if p < t.len() && is_ws(t[p]) {
        lemma_skip_ws_bounds(t, p + 1);
    }
}

pub proof fn lemma_word_end_bounds(t: Seq<char>, p: int)
    requires
        0 <= p <= t.len(),
    ensures
        p <= word_end(t, p) <= t.len(),
        forall|k: int| p <= k < word_end(t, p) ==> is_word(#[trigger] t[k]),
        word_end(t, p) < t.len() ==> !is_word(t[word_end(t, p)]),
    decreases t.len() - p,
{
    if p < t.len() && is_word(t[p]) {
        lemma_word_end_bounds(t, p + 1);
    }
}

pub proof fn lemma_digits_end_bounds(t: Seq<char>, p: int)
    requires
        0 <= p <= t.len(),
    ensures
        p <= digits_end(t, p) <= t.len(),
        forall|k: int| p <= k < digits_end(t, p) ==> is_digit(#[trigger] t[k]),
        digits_end(t, p) < t.len() ==> !is_digit(t[digits_end(t, p)]),
    decreases t.len() - p,
{
    if p < t.len() && is_digit(t[p]) {
        lemma_digits_end_bounds(t, p + 1);
    }
}

pub proof fn lemma_unquoted_end_bounds(t: Seq<char>, p: int)
    requires
        0 <= p <= t.len(),
    ensures
        p <= unquoted_end(t, p) <= t.len(),
        forall|k: int| p <= k < unquoted_end(t, p) ==> #[trigger] t[k] != '\'',
        unquoted_end(t, p) < t.len() ==> t[unquoted_end(t, p)] == '\'',
    decreases t.len() - p,
{
    if p < t.len() && t[p] != '\'' {
        lemma_unquoted_end_bounds(t, p + 1);
    }
}

pub proof fn lemma_ident_bounds(t: Seq<char>, p: int)
    requires
        0 <= p <= t.len(),
    ensures
        ident(t, p) matches Ok((_, q)) ==> p < q <= t.len(),
{
    if p < t.len() && is_ident_start(t[p]) {
        lemma_word_end_bounds(t, p + 1);
    }
}

pub proof fn lemma_uint_bounds(t: Seq<char>, p: int)
    requires
        0 <= p <= t.len(),
    ensures
        uint(t, p) matches Ok((_, q)) ==> p < q <= t.len(),
{
    lemma_digits_end_bounds(t, p);
}

pub proof fn lemma_integer_bounds(t: Seq<char>, p: int)
    requires
        0 <= p <= t.len(),
    ensures
        integer(t, p) matches Ok((_, q)) ==> p < q <= t.len(),
{
    if at(t, p, '-') {
        lemma_digits_end_bounds(t, p + 1);
    } else {
        lemma_digits_end_bounds(t, p);
    }
}

pub proof fn lemma_date_unit_bounds(t: Seq<char>, p: int)
    requires
        0 <= p <= t.len(),
    ensures
        date_unit(t, p) matches Ok((_, q)) ==> p < q <= t.len(),
{
    if at(t, p, '\'') {
        lemma_unquoted_end_bounds(t, p + 1);
    }
}

pub proof fn lemma_filter_bounds(t: Seq<char>, p: int)
    requires
        0 <= p <= t.len(),
    ensures
        filter(t, p) matches Ok((_, q)) ==> p < q <= t.len(),
{
    lemma_ident_bounds(t, p);
    if let Ok((name, q)) = ident(t, p) {
        lemma_skip_ws_bounds(t, q);
        let a = skip_ws(t, q);
        if at(t, a, '(') {
            lemma_skip_ws_bounds(t, a + 1);
            let b = skip_ws(t, a + 1);
            lemma_integer_bounds(t, b);
            if let Ok((n, c)) = integer(t, b) {
                lemma_skip_ws_bounds(t, c);
                let d = skip_ws(t, c);
                if at(t, d, ',') {
                    lemma_skip_ws_bounds(t, d + 1);
                    let e = skip_ws(t, d + 1);
                    lemma_date_unit_bounds(t, e);
                    if let Ok((u, g)) = date_unit(t, e) {
                        lemma_skip_ws_bounds(t, g);
                    }
                }
            }
        }
    }
}

pub proof fn lemma_path_tail_bounds(t: Seq<char>, p: int, acc: Seq<char>)
    requires
        0 <= p <= t.len(),
    ensures
        path_tail(t, p, acc) matches Ok((_, q)) ==> p <= q <= t.len(),
    decreases t.len() - p,
{
    if at(t, p, '.') {
        lemma_ident_bounds(t, p + 1);
        if let Ok((name, q)) = ident(t, p + 1) {
            lemma_path_tail_bounds(t, q, acc + seq!['.'] + name);
        }
    } else if at(t, p, '[') {
        lemma_uint_bounds(t, p + 1);
        if let Ok((index, q)) = uint(t, p + 1) {
            if at(t, q, ']') {
                lemma_path_tail_bounds(t, q + 1, acc + seq!['['] + decimal(index as nat) + seq![']']);
            }
        }
    }
}

pub proof fn lemma_path_bounds(t: Seq<char>, p: int)
    requires
        0 <= p <= t.len(),
    ensures
        path(t, p) matches Ok((_, q)) ==> p < q <= t.len(),
{
    lemma_ident_bounds(t, p);
    if let Ok((head, q)) = ident(t, p) {
        if at(t, q, '(') {
            lemma_skip_ws_bounds(t, q + 1);
        } else {
            lemma_path_tail_bounds(t, q, head);
        }
    }
}

pub proof fn lemma_filters_bounds(t: Seq<char>, p: int, open: int, path: Seq<char>, fs: Seq<Filter>)
    requires
        0 <= p <= t.len(),
    ensures
        filters(t, p, open, path, fs) matches Ok((_, q)) ==> p < q <= t.len(),
    decreases t.len() - p,
{
    if at(t, p, '|') {
        lemma_skip_ws_bounds(t, p + 1);
        lemma_filter_bounds(t, skip_ws(t, p + 1));
        if let Ok((f, q)) = filter(t, skip_ws(t, p + 1)) {
            lemma_skip_ws_bounds(t, q);
            lemma_filters_bounds(t, skip_ws(t, q), open, path, fs.push(f));
        }
    }
}

pub proof fn lemma_expr_bounds(t: Seq<char>, open: int)
    requires
        0 <= open,
        open + 2 <= t.len(),
    ensures
        expr(t, open) matches Ok((_, q)) ==> open + 2 < q <= t.len(),
{
    lemma_skip_ws_bounds(t, open + 2);
    let p = skip_ws(t, open + 2);
    if !at_close(t, p) && p < t.len() {
        lemma_path_bounds(t, p);
        if let Ok((path, q)) = path(t, p) {
            lemma_skip_ws_bounds(t, q);
            lemma_filters_bounds(t, skip_ws(t, q), open, path, seq![]);
        }
    }
}

} // verus!
