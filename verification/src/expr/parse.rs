//! The template parser. It reads the template as a sequence of characters
//! and is proved to compute exactly the grammar of `grammar.rs`; error
//! offsets are reported in bytes of the UTF-8 text.

use vstd::prelude::*;
use vstd::utf8::encode_utf8;
use super::grammar;
use super::grammar::{
    Failure, at, at_close, lemma_expr_bounds, lemma_filter_bounds, lemma_ident_bounds,
    lemma_skip_ws_bounds, lemma_uint_bounds, date_unit, expr, filters, flush, path, path_tail, template_from, digits_end, digits_value, expected, filter, ident, integer,
    is_digit, is_ident_start, is_word, is_ws, lemma_digits_end_bounds, lemma_unquoted_end_bounds,
    lemma_digits_value_nonneg, skip_ws, uint, unquoted_end, word_end,
};
use super::{DateUnit, ExprError, Filter, RefExpr, Segment, SegmentView, segments_view};
use crate::text::{decimal, decimal_u64};
use crate::text::{byte_offset, chars_of, push_char, push_str, utf8_offset};

verus! {

/// `e` reports failure `f` of parsing `t`: same message, and the offset of
/// the failing character in bytes.
pub open spec fn reports(e: ExprError, t: Seq<char>, f: Failure) -> bool {
    &&& e.message@ == f.message
    &&& e.offset is Some
    &&& e.offset->0 == byte_offset(t, f.pos)
}

fn is_ws_char(c: char) -> (b: bool)
    ensures
        b == is_ws(c),
{
    c == ' ' || c == '\t' || c == '\r' || c == '\n'
}

pub(crate) fn is_digit_char(c: char) -> (b: bool)
    ensures
        b == is_digit(c),
{
    '0' <= c && c <= '9'
}

fn is_ident_start_char(c: char) -> (b: bool)
    ensures
        b == is_ident_start(c),
{
    ('a' <= c && c <= 'z') || ('A' <= c && c <= 'Z') || c == '_'
}

pub(crate) fn is_word_char(c: char) -> (b: bool)
    ensures
        b == is_word(c),
{
    is_ident_start_char(c) || is_digit_char(c)
}

/// The characters `src[start..end]` as a string.
pub(crate) fn collect(src: &[char], start: usize, end: usize) -> (s: String)
    requires
        start <= end <= src@.len(),
    ensures
        s@ == src@.subrange(start as int, end as int),
{
    let mut s = String::new();
    let mut i = start;
    while i < end
        invariant
            start <= i <= end <= src@.len(),
            s@ == src@.subrange(start as int, i as int),
        decreases end - i,
    {
        push_char(&mut s, src[i]);
        i = i + 1;
        proof {
            assert(s@ =~= src@.subrange(start as int, i as int));
        }
    }
    s
}

/// The number the decimal digits `src[start..end]` denote, or `None` when
/// it does not fit in a `u64`.
pub(crate) fn digits_to_u64(src: &[char], start: usize, end: usize) -> (r: Option<u64>)
    requires
        start <= end <= src@.len(),
        forall|k: int| start <= k < end ==> is_digit(#[trigger] src@[k]),
    ensures
        match r {
            Some(v) => v == digits_value(src@.subrange(start as int, end as int)),
            None => digits_value(src@.subrange(start as int, end as int)) > u64::MAX,
        },
{
    let mut acc: u64 = 0;
    let mut i = start;
    while i < end
        invariant
            start <= i <= end <= src@.len(),
            forall|k: int| start <= k < end ==> is_digit(#[trigger] src@[k]),
            acc == digits_value(src@.subrange(start as int, i as int)),
        decreases end - i,
    {
        let c = src[i];
        proof {
            assert(src@.subrange(start as int, i as int + 1).drop_last()
                =~= src@.subrange(start as int, i as int));
            assert(is_digit(src@[i as int]));
        }
        let d = (c as u32 - '0' as u32) as u64;
        let step = acc.checked_mul(10);
        match step {
            None => {
                proof {
                    lemma_digits_value_grows(src@.subrange(start as int, end as int), i - start + 1);
                    assert(src@.subrange(start as int, end as int).take(i - start + 1)
                        =~= src@.subrange(start as int, i as int + 1));
                }
                return None;
            },
            Some(m) => match m.checked_add(d) {
                None => {
                    proof {
                        lemma_digits_value_grows(src@.subrange(start as int, end as int), i - start + 1);
                        assert(src@.subrange(start as int, end as int).take(i - start + 1)
                            =~= src@.subrange(start as int, i as int + 1));
                    }
                    return None;
                },
                Some(v) => {
                    acc = v;
                },
            },
        }
        i = i + 1;
    }
    Some(acc)
}

/// Appending digits never makes the number smaller.
proof fn lemma_digits_value_grows(s: Seq<char>, k: int)
    requires
        0 <= k <= s.len(),
        forall|j: int| 0 <= j < s.len() ==> is_digit(#[trigger] s[j]),
    ensures
        digits_value(s.take(k)) <= digits_value(s),
    decreases s.len(),
{
    if k < s.len() {
        assert(s.drop_last().take(k) =~= s.take(k));
        lemma_digits_value_grows(s.drop_last(), k);
        lemma_digits_value_nonneg(s.drop_last());
        assert(is_digit(s.last()));
    }
    else {
        assert(s.take(k) =~= s);
    }
}

/// A cursor over the characters of a template, inside the expression
/// whose `{{` starts at `open`.
struct Parser<'a> {
    src: &'a [char],
    pos: usize,
    open: usize,
}

impl<'a> Parser<'a> {
    spec fn wf(&self) -> bool {
        &&& self.pos <= self.src@.len() <= usize::MAX
        &&& encode_utf8(self.src@).len() <= usize::MAX
    }

    /// The same template and expression, the cursor anywhere.
    spec fn same(&self, other: &Self) -> bool {
        &&& self.src@ == other.src@
        &&& self.open == other.open
        &&& self.wf()
    }

    fn peek(&self) -> (r: Option<char>)
        requires
            self.wf(),
        ensures
            r == (if self.pos < self.src@.len() { Some(self.src@[self.pos as int]) } else { None }),
    {
        if self.pos < self.src.len() {
            Some(self.src[self.pos])
        } else {
            None
        }
    }

    /// An error at character position `pos`, reported in bytes.
    fn fail(&self, message: String, pos: usize) -> (e: ExprError)
        requires
            self.wf(),
            pos <= self.src@.len(),
        ensures
            e.message == message,
            e.offset is Some,
            e.offset->0 == byte_offset(self.src@, pos as int),
    {
        ExprError::at(message, utf8_offset(self.src, pos))
    }

    fn skip_ws(&mut self)
        requires
            old(self).wf(),
        ensures
            final(self).same(old(self)),
            final(self).pos == skip_ws(old(self).src@, old(self).pos as int),
    {
        while self.pos < self.src.len() && is_ws_char(self.src[self.pos])
            invariant
                self.wf(),
                self.same(old(self)),
                skip_ws(self.src@, self.pos as int) == skip_ws(old(self).src@, old(self).pos as int),
            decreases self.src@.len() - self.pos,
        {
            self.pos = self.pos + 1;
        }
    }

    fn eat(&mut self, c: char) -> (b: bool)
        requires
            old(self).wf(),
        ensures
            final(self).same(old(self)),
            b == at(old(self).src@, old(self).pos as int, c),
            final(self).pos == if b { old(self).pos + 1 } else { old(self).pos as int },
    {
        if self.pos < self.src.len() && self.src[self.pos] == c {
            self.pos = self.pos + 1;
            true
        } else {
            false
        }
    }

    fn expect(&mut self, c: char, what: &str) -> (r: Result<(), ExprError>)
        requires
            old(self).wf(),
        ensures
            final(self).same(old(self)),
            at(old(self).src@, old(self).pos as int, c) ==> r is Ok && final(self).pos == old(self).pos + 1,
            !at(old(self).src@, old(self).pos as int, c) ==> (r matches Err(e) && reports(
                e,
                old(self).src@,
                (Failure { message: expected(what@), pos: old(self).pos as int }),
            )),
    {
        if self.eat(c) {
            Ok(())
        } else {
            let mut message = "expected ".to_owned();
            push_str(&mut message, what);
            Err(self.fail(message, self.pos))
        }
    }

    fn at_close(&self) -> (b: bool)
        requires
            self.wf(),
        ensures
            b == at_close(self.src@, self.pos as int),
    {
        self.pos < self.src.len() && self.src.len() - self.pos >= 2 && self.src[self.pos] == '}'
            && self.src[self.pos + 1] == '}'
    }

    fn parse_ident(&mut self) -> (r: Result<String, ExprError>)
        requires
            old(self).wf(),
        ensures
            final(self).same(old(self)),
            match r {
                Ok(s) => ident(old(self).src@, old(self).pos as int) == Ok::<_, Failure>(
                    (s@, final(self).pos as int),
                ),
                Err(e) => ident(old(self).src@, old(self).pos as int) matches Err(f) && reports(
                    e,
                    old(self).src@,
                    f,
                ),
            },
    {
        let start = self.pos;
        match self.peek() {
            Some(c) => {
                if is_ident_start_char(c) {
                    self.pos = self.pos + 1;
                } else {
                    return Err(self.fail(
                        "expected identifier (letters, digits, '_'; must not start with a digit)".to_owned(),
                        self.pos,
                    ));
                }
            },
            None => {
                return Err(self.fail(
                    "expected identifier (letters, digits, '_'; must not start with a digit)".to_owned(),
                    self.pos,
                ));
            },
        }
        while self.pos < self.src.len() && is_word_char(self.src[self.pos])
            invariant
                self.wf(),
                self.same(old(self)),
                start < self.pos,
                start < self.src@.len(),
                start == old(self).pos,
                is_ident_start(self.src@[start as int]),
                word_end(self.src@, self.pos as int) == word_end(self.src@, start + 1),
            decreases self.src@.len() - self.pos,
        {
            self.pos = self.pos + 1;
        }
        Ok(collect(self.src, start, self.pos))
    }

    fn parse_uint(&mut self) -> (r: Result<u64, ExprError>)
        requires
            old(self).wf(),
        ensures
            final(self).same(old(self)),
            match r {
                Ok(v) => uint(old(self).src@, old(self).pos as int) == Ok::<_, Failure>(
                    (v as int, final(self).pos as int),
                ),
                Err(e) => uint(old(self).src@, old(self).pos as int) matches Err(f) && reports(
                    e,
                    old(self).src@,
                    f,
                ),
            },
    {
        let start = self.pos;
        proof {
            lemma_digits_end_bounds(self.src@, start as int);
        }
        while self.pos < self.src.len() && is_digit_char(self.src[self.pos])
            invariant
                self.wf(),
                self.same(old(self)),
                start == old(self).pos,
                start <= self.pos,
                digits_end(self.src@, self.pos as int) == digits_end(self.src@, start as int),
                forall|k: int| start <= k < self.pos ==> is_digit(#[trigger] self.src@[k]),
            decreases self.src@.len() - self.pos,
        {
            self.pos = self.pos + 1;
        }
        if self.pos == start {
            return Err(self.fail("expected array index (unsigned integer)".to_owned(), start));
        }
        match digits_to_u64(self.src, start, self.pos) {
            Some(v) => Ok(v),
            None => Err(self.fail("array index out of range".to_owned(), start)),
        }
    }

    fn parse_int(&mut self) -> (r: Result<i64, ExprError>)
        requires
            old(self).wf(),
        ensures
            final(self).same(old(self)),
            match r {
                Ok(v) => integer(old(self).src@, old(self).pos as int) == Ok::<_, Failure>(
                    (v as int, final(self).pos as int),
                ),
                Err(e) => integer(old(self).src@, old(self).pos as int) matches Err(f) && reports(
                    e,
                    old(self).src@,
                    f,
                ),
            },
    {
        let start = self.pos;
        let neg = self.eat('-');
        let digits_start = self.pos;
        proof {
            lemma_digits_end_bounds(self.src@, digits_start as int);
        }
        while self.pos < self.src.len() && is_digit_char(self.src[self.pos])
            invariant
                self.wf(),
                self.same(old(self)),
                digits_start <= self.pos,
                digits_end(self.src@, self.pos as int) == digits_end(self.src@, digits_start as int),
                forall|k: int| digits_start <= k < self.pos ==> is_digit(#[trigger] self.src@[k]),
            decreases self.src@.len() - self.pos,
        {
            self.pos = self.pos + 1;
        }
        if self.pos == digits_start {
            return Err(self.fail("expected integer".to_owned(), start));
        }
        match digits_to_u64(self.src, digits_start, self.pos) {
            None => Err(self.fail("integer out of range".to_owned(), start)),
            Some(m) => {
                if neg {
                    if m > 0x8000_0000_0000_0000u64 {
                        Err(self.fail("integer out of range".to_owned(), start))
                    } else if m == 0x8000_0000_0000_0000u64 {
                        Ok(i64::MIN)
                    } else {
                        Ok(-(m as i64))
                    }
                } else if m > 0x7fff_ffff_ffff_ffffu64 {
                    Err(self.fail("integer out of range".to_owned(), start))
                } else {
                    Ok(m as i64)
                }
            },
        }
    }

    fn parse_date_unit(&mut self) -> (r: Result<DateUnit, ExprError>)
        requires
            old(self).wf(),
        ensures
            final(self).same(old(self)),
            match r {
                Ok(u) => date_unit(old(self).src@, old(self).pos as int) == Ok::<_, Failure>(
                    (u, final(self).pos as int),
                ),
                Err(e) => date_unit(old(self).src@, old(self).pos as int) matches Err(f) && reports(
                    e,
                    old(self).src@,
                    f,
                ),
            },
    {
        let quote_start = self.pos;
        self.expect('\'', "single-quoted unit ('DAYS', 'HOURS', or 'MINUTES')")?;
        let start = self.pos;
        proof {
            lemma_unquoted_end_bounds(self.src@, start as int);
        }
        while self.pos < self.src.len() && self.src[self.pos] != '\''
            invariant
                self.wf(),
                self.same(old(self)),
                start <= self.pos,
                start == quote_start + 1,
                quote_start == old(self).pos,
                at(self.src@, quote_start as int, '\''),
                unquoted_end(self.src@, self.pos as int) == unquoted_end(self.src@, start as int),
            decreases self.src@.len() - self.pos,
        {
            self.pos = self.pos + 1;
        }
        if self.pos >= self.src.len() {
            return Err(self.fail("unterminated unit string".to_owned(), quote_start));
        }
        let unit = collect(self.src, start, self.pos);
        self.pos = self.pos + 1;
        if unit == "DAYS".to_owned() {
            Ok(DateUnit::Days)
        } else if unit == "HOURS".to_owned() {
            Ok(DateUnit::Hours)
        } else if unit == "MINUTES".to_owned() {
            Ok(DateUnit::Minutes)
        } else {
            let mut message = "unknown date unit: '".to_owned();
            push_str(&mut message, unit.as_str());
            push_str(&mut message, "' (expected 'DAYS', 'HOURS', or 'MINUTES')");
            Err(self.fail(message, quote_start))
        }
    }

    fn parse_filter(&mut self) -> (r: Result<Filter, ExprError>)
        requires
            old(self).wf(),
        ensures
            final(self).same(old(self)),
            match r {
                Ok(f) => filter(old(self).src@, old(self).pos as int) == Ok::<_, Failure>(
                    (f, final(self).pos as int),
                ),
                Err(e) => filter(old(self).src@, old(self).pos as int) matches Err(f) && reports(
                    e,
                    old(self).src@,
                    f,
                ),
            },
    {
        let name_start = self.pos;
        let name = self.parse_ident()?;
        if name != "dateAdd".to_owned() {
            let mut message = "unknown filter: ".to_owned();
            push_str(&mut message, name.as_str());
            push_str(&mut message, " (only 'dateAdd' is supported)");
            return Err(self.fail(message, name_start));
        }
        self.skip_ws();
        self.expect('(', "'(' after filter name")?;
        self.skip_ws();
        let n = self.parse_int()?;
        self.skip_ws();
        self.expect(',', "',' between dateAdd arguments")?;
        self.skip_ws();
        let unit = self.parse_date_unit()?;
        self.skip_ws();
        self.expect(')', "')' after filter arguments")?;
        Ok(Filter::DateAdd { n, unit })
    }

    /// A reference path, returned in its canonical spelling.
    fn parse_path(&mut self) -> (r: Result<String, ExprError>)
        requires
            old(self).wf(),
        ensures
            final(self).same(old(self)),
            match r {
                Ok(s) => path(old(self).src@, old(self).pos as int) == Ok::<_, Failure>(
                    (s@, final(self).pos as int),
                ),
                Err(e) => path(old(self).src@, old(self).pos as int) matches Err(f) && reports(
                    e,
                    old(self).src@,
                    f,
                ),
            },
    {
        let head_start = self.pos;
        let head = self.parse_ident()?;
        if self.eat('(') {
            if head != "now".to_owned() {
                let mut message = "unknown function: ".to_owned();
                push_str(&mut message, head.as_str());
                push_str(&mut message, " (only 'now()' is supported)");
                return Err(self.fail(message, head_start));
            }
            self.skip_ws();
            self.expect(')', "')' after 'now('")?;
            return Ok("now()".to_owned());
        }
        let ghost tail_start = self.pos as int;
        let ghost head_view = head@;
        let mut path = head;
        loop
            invariant
                self.wf(),
                self.same(old(self)),
                ident(self.src@, head_start as int) == Ok::<_, Failure>((head_view, tail_start)),
                !at(self.src@, tail_start, '('),
                head_start == old(self).pos,
                path_tail(self.src@, self.pos as int, path@) == path_tail(
                    self.src@,
                    tail_start,
                    head_view,
                ),
            ensures
                path_tail(self.src@, tail_start, head_view) == Ok::<_, Failure>(
                    (path@, self.pos as int),
                ),
            decreases self.src@.len() - self.pos,
        {
            let ghost before = path@;
            if self.eat('.') {
                proof {
                    lemma_ident_bounds(self.src@, self.pos as int);
                }
                let name = self.parse_ident()?;
                push_char(&mut path, '.');
                push_str(&mut path, name.as_str());
                proof {
                    assert(path@ =~= before + seq!['.'] + name@);
                }
            } else if self.eat('[') {
                proof {
                    lemma_uint_bounds(self.src@, self.pos as int);
                }
                let index = self.parse_uint()?;
                self.expect(']', "']' after array index")?;
                let digits = decimal_u64(index);
                push_char(&mut path, '[');
                push_str(&mut path, digits.as_str());
                push_char(&mut path, ']');
                proof {
                    assert(path@ =~= before + seq!['['] + decimal(index as nat) + seq![']']);
                }
            } else {
                break;
            }
        }
        Ok(path)
    }

    /// The expression whose `{{` starts at `open`, up to its closing `}}`.
    fn parse_expr(&mut self) -> (r: Result<RefExpr, ExprError>)
        requires
            old(self).wf(),
            old(self).pos == old(self).open + 2,
        ensures
            final(self).same(old(self)),
            match r {
                Ok(re) => expr(old(self).src@, old(self).open as int) == Ok::<_, Failure>(
                    (re@, final(self).pos as int),
                ),
                Err(e) => expr(old(self).src@, old(self).open as int) matches Err(f) && reports(
                    e,
                    old(self).src@,
                    f,
                ),
            },
    {
        self.skip_ws();
        if self.at_close() {
            return Err(self.fail("empty expression in '{{ }}'".to_owned(), self.open));
        }
        if self.pos >= self.src.len() {
            return Err(self.fail("unclosed '{{'".to_owned(), self.open));
        }
        let path = self.parse_path()?;
        self.skip_ws();
        proof {
            assert(expr(self.src@, self.open as int) == filters(
                self.src@,
                self.pos as int,
                self.open as int,
                path@,
                seq![],
            ));
        }
        let ghost filters_start = self.pos as int;
        let mut found: Vec<Filter> = Vec::new();
        loop
            invariant
                self.wf(),
                self.same(old(self)),
                old(self).open + 2 <= self.src@.len(),
                filters(self.src@, self.pos as int, self.open as int, path@, found@) == filters(
                    self.src@,
                    filters_start,
                    self.open as int,
                    path@,
                    seq![],
                ),
                expr(self.src@, self.open as int) == filters(
                    self.src@,
                    filters_start,
                    self.open as int,
                    path@,
                    seq![],
                ),
            ensures
                !at(self.src@, self.pos as int, '|'),
                filters(self.src@, self.pos as int, self.open as int, path@, found@) == filters(
                    self.src@,
                    filters_start,
                    self.open as int,
                    path@,
                    seq![],
                ),
            decreases self.src@.len() - self.pos,
        {
            if !self.eat('|') {
                break;
            }
            proof {
                lemma_skip_ws_bounds(self.src@, self.pos as int);
            }
            self.skip_ws();
            proof {
                lemma_filter_bounds(self.src@, self.pos as int);
            }
            let f = self.parse_filter()?;
            proof {
                lemma_skip_ws_bounds(self.src@, self.pos as int);
            }
            found.push(f);
            self.skip_ws();
        }
        if self.at_close() {
            self.pos = self.pos + 2;
            Ok(RefExpr { path, filters: found })
        } else if self.pos >= self.src.len() {
            Err(self.fail("unclosed '{{'".to_owned(), self.open))
        } else {
            Err(self.fail("expected '}}'".to_owned(), self.pos))
        }
    }
}

/// Parse a template into its text and `{{ expr }}` segments.
pub(crate) fn parse_template(template: &str) -> (r: Result<Vec<Segment>, ExprError>)
    ensures
        match r {
            Ok(segs) => grammar::template(template@) == Ok::<_, Failure>(segments_view(segs@)),
            Err(e) => grammar::template(template@) matches Err(f) && reports(e, template@, f),
        },
{
    let byte_len = template.as_bytes().len();
    let chars = chars_of(template);
    let src = chars.as_slice();
    let mut segments: Vec<Segment> = Vec::new();
    let mut text = String::new();
    let mut i: usize = 0;
    proof {
        assert(segments_view(segments@) =~= Seq::<SegmentView>::empty());
        assert(src@ == template@);
    }
    while i < src.len()
        invariant
            src@ == template@,
            encode_utf8(src@).len() <= usize::MAX,
            src@.len() <= usize::MAX,
            i <= src@.len(),
            template_from(src@, i as int, text@, segments_view(segments@)) == grammar::template(src@),
        decreases src@.len() - i,
    {
        if src[i] == '{' && i + 1 < src.len() && src[i + 1] == '{' {
            let ghost before = segments_view(segments@);
            let ghost pending = text@;
            if !text.as_str().is_empty() {
                segments.push(Segment::Text(text));
                text = String::new();
            }
            proof {
                assert(segments_view(segments@) =~= flush(before, pending));
            }
            proof {
                assert(text@ =~= Seq::<char>::empty());
                lemma_expr_bounds(src@, i as int);
            }
            let mut p = Parser { src, pos: i + 2, open: i };
            let re = p.parse_expr()?;
            let ghost mid = segments_view(segments@);
            segments.push(Segment::Ref(re));
            proof {
                assert(segments_view(segments@) =~= mid.push(SegmentView::Ref(re@)));
            }
            i = p.pos;
        } else {
            push_char(&mut text, src[i]);
            i = i + 1;
        }
    }
    proof {
        assert(i == src@.len());
    }
    let ghost before = segments_view(segments@);
    let ghost pending = text@;
    if !text.as_str().is_empty() {
        segments.push(Segment::Text(text));
    }
    proof {
        assert(segments_view(segments@) =~= flush(before, pending));
    }
    Ok(segments)
}

} // verus!
