//! Canonical spelling is a fixed point of parsing: serializing what the
//! parser produced and parsing that text again gives back the same segments.

use vstd::prelude::*;
use super::grammar::{
    at, digit_value, digits_end, digits_value, ident, is_digit, is_ident_start, is_word, is_ws,
    lemma_digits_end_bounds, lemma_digits_value_nonneg, lemma_ident_bounds, lemma_skip_ws_bounds, lemma_uint_bounds,
    lemma_word_end_bounds, now_call, now_name, path, path_tail, skip_ws, uint, word_end,
};
use super::{DateUnit, Filter, RefView, SegmentView, filter_text, filters_text, ref_text, segment_text, segments_text};
use super::grammar::{
    Failure, date_unit, expr, filter, filters, flush, integer, lemma_expr_bounds, template,
    template_from, unit_named, unquoted_end,
};
use crate::text::{decimal, digit_char, signed_decimal};

verus! {

// ------------------------------------------------------------------ numbers

proof fn lemma_digit_char(d: nat)
    requires
        d < 10,
    ensures
        is_digit(digit_char(d)),
        digit_value(digit_char(d)) == d,
        !is_ws(digit_char(d)),
        digit_char(d) != '-',
{
}

/// The canonical decimal spelling is made of digits and reads back as the
/// number it spells.
pub proof fn lemma_decimal(n: nat)
    ensures
        decimal(n).len() > 0,
        forall|k: int| 0 <= k < decimal(n).len() ==> is_digit(#[trigger] decimal(n)[k]),
        digits_value(decimal(n)) == n,
    decreases n,
{
    if n < 10 {
        lemma_digit_char(n);
        assert(seq![digit_char(n)].drop_last() =~= Seq::<char>::empty());
        assert(digits_value(Seq::<char>::empty()) == 0);
        assert(digits_value(seq![digit_char(n)]) == digits_value(Seq::<char>::empty()) * 10 + digit_value(digit_char(n)));
    } else {
        lemma_decimal(n / 10);
        lemma_digit_char(n % 10);
        let s = decimal(n / 10);
        assert(s.push(digit_char(n % 10)).drop_last() =~= s);
        assert(s.push(digit_char(n % 10)).last() == digit_char(n % 10));
        assert(digits_value(s.push(digit_char(n % 10))) == digits_value(s) * 10 + digit_value(digit_char(n % 10)));
        assert((n / 10) * 10 + n % 10 == n) by (nonlinear_arith);
    }
}

// ------------------------------------------------------------------- scans

/// A run of word characters from `a` to `b`, then a non-word character or
/// the end: that is where the word scan stops.
proof fn lemma_word_end_exact(t: Seq<char>, a: int, b: int)
    requires
        0 <= a <= b <= t.len(),
        forall|k: int| a <= k < b ==> is_word(#[trigger] t[k]),
        b < t.len() ==> !is_word(t[b]),
    ensures
        word_end(t, a) == b,
    decreases b - a,
{
    if a < b {
        lemma_word_end_exact(t, a + 1, b);
    }
}

proof fn lemma_digits_end_exact(t: Seq<char>, a: int, b: int)
    requires
        0 <= a <= b <= t.len(),
        forall|k: int| a <= k < b ==> is_digit(#[trigger] t[k]),
        b < t.len() ==> !is_digit(t[b]),
    ensures
        digits_end(t, a) == b,
    decreases b - a,
{
    if a < b {
        lemma_digits_end_exact(t, a + 1, b);
    }
}

/// `s` sits in `w` at offset `d`, followed by a blank.
pub open spec fn placed(s: Seq<char>, w: Seq<char>, d: int) -> bool {
    &&& 0 <= d
    &&& d + s.len() < w.len()
    &&& forall|k: int| 0 <= k < s.len() ==> w[d + k] == #[trigger] s[k]
    &&& w[d + s.len()] == ' '
}

proof fn lemma_word_end_shift(s: Seq<char>, w: Seq<char>, d: int, y: int)
    requires
        placed(s, w, d),
        0 <= y <= s.len(),
    ensures
        word_end(w, d + y) == d + word_end(s, y),
    decreases s.len() - y,
{
    if y < s.len() {
        assert(w[d + y] == s[y]);
        lemma_word_end_shift(s, w, d, y + 1);
    } else {
        assert(w[d + s.len()] == ' ');
    }
}

proof fn lemma_digits_end_shift(s: Seq<char>, w: Seq<char>, d: int, y: int)
    requires
        placed(s, w, d),
        0 <= y <= s.len(),
    ensures
        digits_end(w, d + y) == d + digits_end(s, y),
    decreases s.len() - y,
{
    if y < s.len() {
        assert(w[d + y] == s[y]);
        lemma_digits_end_shift(s, w, d, y + 1);
    } else {
        assert(w[d + s.len()] == ' ');
    }
}

// ------------------------------------------------------------ paths

/// The rest of a canonical path from `p` on: pieces `.ident` and
/// `[n]`, each index in its canonical decimal spelling.
pub open spec fn canon_tail(s: Seq<char>, p: int) -> bool
    decreases s.len() - p,
{
    if p < 0 || p >= s.len() {
        p == s.len()
    } else if s[p] == '.' {
        if p + 1 < s.len() && is_ident_start(s[p + 1]) {
            proof {
                lemma_word_end_bounds(s, p + 1);
            }
            canon_tail(s, word_end(s, p + 1))
        } else {
            false
        }
    } else if s[p] == '[' {
        let e = digits_end(s, p + 1);
        if e > p + 1 && at(s, e, ']') && digits_value(s.subrange(p + 1, e)) <= u64::MAX
            && decimal(digits_value(s.subrange(p + 1, e)) as nat) == s.subrange(p + 1, e) {
            canon_tail(s, e + 1)
        } else {
            false
        }
    } else {
        false
    }
}

/// A path in the spelling the parser gives it: `now()`, or an identifier
/// followed by a canonical tail.
pub open spec fn canon_path(s: Seq<char>) -> bool {
    ||| s == now_call()
    ||| (s.len() > 0 && is_ident_start(s[0]) && canon_tail(s, word_end(s, 1)))
}

proof fn lemma_path_tail_canonical(t: Seq<char>, p: int, acc: Seq<char>)
    requires
        0 <= p <= t.len(),
    ensures
        path_tail(t, p, acc) matches Ok((s, q)) ==> {
            &&& s.len() >= acc.len()
            &&& s.subrange(0, acc.len() as int) == acc
            &&& canon_tail(s, acc.len() as int)
            &&& s.len() > acc.len() ==> (s[acc.len() as int] == '.' || s[acc.len() as int] == '[')
        },
    decreases t.len() - p,
{
    if at(t, p, '.') {
        lemma_ident_bounds(t, p + 1);
        if let Ok((name, q)) = ident(t, p + 1) {
            lemma_word_end_bounds(t, p + 2);
            let acc2 = acc + seq!['.'] + name;
            lemma_path_tail_canonical(t, q, acc2);
            if let Ok((s, r)) = path_tail(t, q, acc2) {
                let a = acc.len() as int;
                assert(s.subrange(0, acc2.len() as int) == acc2);
                assert(s[a] == acc2[a]);
                assert forall|k: int| a + 1 <= k < acc2.len() implies is_word(#[trigger] s[k]) by {
                    assert(s[k] == acc2[k]);
                    assert(acc2[k] == name[k - a - 1]);
                    assert(name[k - a - 1] == t[p + 1 + k - a - 1]);
                }
                assert(s[a + 1] == acc2[a + 1]);
                assert(s[a + 1] == name[0]);
                assert(is_ident_start(name[0]));
                lemma_word_end_exact(s, a + 1, acc2.len() as int);
                assert(canon_tail(s, a));
                assert(s.subrange(0, a) =~= acc) by {
                    assert forall|k: int| 0 <= k < a implies s.subrange(0, a)[k] == acc[k] by {
                        assert(s[k] == acc2[k]);
                    }
                }
            }
        }
    } else if at(t, p, '[') {
        lemma_uint_bounds(t, p + 1);
        if let Ok((index, q)) = uint(t, p + 1) {
            if at(t, q, ']') {
                lemma_digits_end_bounds(t, p + 1);
                let e0 = digits_end(t, p + 1);
                lemma_digits_value_nonneg(t.subrange(p + 1, e0));
                let digits = decimal(index as nat);
                lemma_decimal(index as nat);
                let acc2 = acc + seq!['['] + digits + seq![']'];
                lemma_path_tail_canonical(t, q + 1, acc2);
                if let Ok((s, r)) = path_tail(t, q + 1, acc2) {
                    let a = acc.len() as int;
                    let e = a + 1 + digits.len();
                    assert(s.subrange(0, acc2.len() as int) == acc2);
                    assert(s[a] == acc2[a]);
                    assert(s[e] == acc2[e]);
                    assert forall|k: int| a + 1 <= k < e implies is_digit(#[trigger] s[k]) by {
                        assert(s[k] == acc2[k]);
                        assert(acc2[k] == digits[k - a - 1]);
                    }
                    lemma_digits_end_exact(s, a + 1, e);
                    assert(digits_end(s, a + 1) == e);
                    assert(s.subrange(a + 1, e) =~= digits) by {
                        assert forall|k: int| 0 <= k < digits.len() implies s.subrange(a + 1, e)[k]
                            == digits[k] by {
                            assert(s[a + 1 + k] == acc2[a + 1 + k]);
                        }
                    }
                    assert(s.subrange(0, a) =~= acc) by {
                        assert forall|k: int| 0 <= k < a implies s.subrange(0, a)[k] == acc[k] by {
                            assert(s[k] == acc2[k]);
                        }
                    }
                    assert(canon_tail(s, e + 1));
                    assert(canon_tail(s, a));
                }
            }
        }
    } else {
        assert(acc.subrange(0, acc.len() as int) =~= acc);
    }
}

/// Every path the parser produces is in canonical spelling.
pub proof fn lemma_path_canonical(t: Seq<char>, p: int)
    requires
        0 <= p <= t.len(),
    ensures
        path(t, p) matches Ok((s, q)) ==> canon_path(s),
{
    lemma_ident_bounds(t, p);
    if let Ok((head, q)) = ident(t, p) {
        if !at(t, q, '(') {
            lemma_word_end_bounds(t, p + 1);
            lemma_path_tail_canonical(t, q, head);
            if let Ok((s, r)) = path_tail(t, q, head) {
                assert(s[0] == head[0]);
                assert forall|k: int| 1 <= k < head.len() implies is_word(#[trigger] s[k]) by {
                    assert(s[k] == head[k]);
                }
                lemma_word_end_exact(s, 1, head.len() as int);
            }
        }
    }
}

proof fn lemma_tail_reparse(s: Seq<char>, x: int, w: Seq<char>, d: int, acc: Seq<char>)
    requires
        canon_tail(s, x),
        0 <= x <= s.len(),
        placed(s, w, d),
    ensures
        path_tail(w, d + x, acc) == Ok::<_, super::grammar::Failure>(
            (acc + s.subrange(x, s.len() as int), d + s.len()),
        ),
    decreases s.len() - x,
{
    if x == s.len() {
        assert(acc + s.subrange(x, s.len() as int) =~= acc);
    } else if s[x] == '.' {
        assert(w[d + x] == s[x]);
        assert(w[d + x + 1] == s[x + 1]);
        lemma_word_end_bounds(s, x + 1);
        lemma_word_end_shift(s, w, d, x + 2);
        assert(word_end(s, x + 1) == word_end(s, x + 2));
        let e = word_end(s, x + 1);
        let name = w.subrange(d + x + 1, d + e);
        assert(name =~= s.subrange(x + 1, e)) by {
            assert forall|k: int| 0 <= k < e - x - 1 implies name[k] == s.subrange(x + 1, e)[k] by {
                assert(w[d + x + 1 + k] == s[x + 1 + k]);
            }
        }
        lemma_tail_reparse(s, e, w, d, acc + seq!['.'] + name);
        assert(acc + seq!['.'] + name + s.subrange(e, s.len() as int) =~= acc + s.subrange(
            x,
            s.len() as int,
        ));
    } else {
        assert(s[x] == '[');
        assert(w[d + x] == s[x]);
        let e = digits_end(s, x + 1);
        lemma_digits_end_bounds(s, x + 1);
        lemma_digits_end_shift(s, w, d, x + 1);
        let digits = w.subrange(d + x + 1, d + e);
        assert(digits =~= s.subrange(x + 1, e)) by {
            assert forall|k: int| 0 <= k < e - x - 1 implies digits[k] == s.subrange(x + 1, e)[k] by {
                assert(w[d + x + 1 + k] == s[x + 1 + k]);
            }
        }
        assert(w[d + e] == s[e]);
        let v = digits_value(digits);
        lemma_tail_reparse(s, e + 1, w, d, acc + seq!['['] + decimal(v as nat) + seq![']']);
        assert(acc + seq!['['] + decimal(v as nat) + seq![']'] + s.subrange(e + 1, s.len() as int)
            =~= acc + s.subrange(x, s.len() as int));
    }
}

/// A canonical path, placed anywhere and followed by a blank, parses as itself.
pub proof fn lemma_path_reparse(s: Seq<char>, w: Seq<char>, d: int)
    requires
        canon_path(s),
        placed(s, w, d),
    ensures
        path(w, d) == Ok::<_, super::grammar::Failure>((s, d + s.len())),
{
    if s == now_call() {
        reveal_strlit("now()");
        reveal_strlit("now");
        assert(w[d] == s[0]);
        assert(w[d + 1] == s[1]);
        assert(w[d + 2] == s[2]);
        assert(w[d + 3] == s[3]);
        assert(w[d + 4] == s[4]);
        lemma_word_end_exact(w, d + 1, d + 3);
        assert(w.subrange(d, d + 3) =~= now_name());
        assert(skip_ws(w, d + 4) == d + 4);
    } else {
        assert(w[d] == s[0]);
        lemma_word_end_bounds(s, 1);
        lemma_word_end_shift(s, w, d, 1);
        let h = word_end(s, 1);
        let head = w.subrange(d, d + h);
        assert(head =~= s.subrange(0, h)) by {
            assert forall|k: int| 0 <= k < h implies head[k] == s.subrange(0, h)[k] by {
                assert(w[d + k] == s[k]);
            }
        }
        if h < s.len() {
            assert(w[d + h] == s[h]);
        }
        lemma_tail_reparse(s, h, w, d, head);
        assert(head + s.subrange(h, s.len() as int) =~= s);
    }
}

proof fn lemma_skip_none(t: Seq<char>, p: int)
    requires
        0 <= p < t.len(),
        !is_ws(t[p]),
    ensures
        skip_ws(t, p) == p,
{
}

proof fn lemma_skip_one(t: Seq<char>, p: int)
    requires
        0 <= p,
        p + 1 < t.len(),
        is_ws(t[p]),
        !is_ws(t[p + 1]),
    ensures
        skip_ws(t, p) == p + 1,
{
    lemma_skip_none(t, p + 1);
}

// ------------------------------------------------------------ filters

/// `x` sits in `w` at offset `d`.
pub open spec fn within(x: Seq<char>, w: Seq<char>, d: int) -> bool {
    &&& 0 <= d
    &&& d + x.len() <= w.len()
    &&& forall|k: int| 0 <= k < x.len() ==> w[d + k] == #[trigger] x[k]
}

proof fn lemma_unquoted_end_exact(t: Seq<char>, a: int, b: int)
    requires
        0 <= a <= b < t.len(),
        forall|k: int| a <= k < b ==> #[trigger] t[k] != '\'',
        t[b] == '\'',
    ensures
        unquoted_end(t, a) == b,
    decreases b - a,
{
    if a < b {
        lemma_unquoted_end_exact(t, a + 1, b);
    }
}

proof fn lemma_spelling(u: DateUnit)
    ensures
        u.spelling().len() > 0,
        forall|k: int| 0 <= k < u.spelling().len() ==> #[trigger] u.spelling()[k] != '\'',
        unit_named(u.spelling()) == Some(u),
{
    reveal_strlit("DAYS");
    reveal_strlit("HOURS");
    reveal_strlit("MINUTES");
    match u {
        DateUnit::Days => {},
        DateUnit::Hours => {
            assert("HOURS"@.len() != "DAYS"@.len());
        },
        DateUnit::Minutes => {
            assert("MINUTES"@.len() != "DAYS"@.len());
            assert("MINUTES"@.len() != "HOURS"@.len());
        },
    }
}

proof fn lemma_filter_text_shape(f: Filter)
    ensures
        filter_text(f).len() >= 16,
        filter_text(f)[0] == ' ',
        filter_text(f)[1] == '|',
        filter_text(f)[2] == ' ',
        filter_text(f)[3] == 'd',
{
    reveal_strlit(" | dateAdd(");
    reveal_strlit(", '");
    reveal_strlit("')");
    match f {
        Filter::DateAdd { n, unit } => {
            lemma_spelling(unit);
            if n < 0 {
                lemma_decimal((-n) as nat);
            } else {
                lemma_decimal(n as nat);
            }
        },
    }
}

/// The canonical text of a filter, placed anywhere, parses as that filter.
proof fn lemma_filter_reparse(f: Filter, w: Seq<char>, d: int)
    requires
        within(filter_text(f), w, d),
    ensures
        filter(w, d + 3) == Ok::<_, Failure>((f, d + filter_text(f).len())),
{
    reveal_strlit(" | dateAdd(");
    reveal_strlit(", '");
    reveal_strlit("')");
    reveal_strlit("dateAdd");
    let ft = filter_text(f);
    match f {
        Filter::DateAdd { n, unit } => {
            let a = " | dateAdd("@;
            let sd = signed_decimal(n as int);
            let b = ", '"@;
            let u = unit.spelling();
            let c = "')"@;
            assert(ft =~= a + sd + b + u + c);
            lemma_spelling(unit);
            let m: nat = if n < 0 { (-n) as nat } else { n as nat };
            lemma_decimal(m);
            let digits = decimal(m);
            // the name
            assert forall|k: int| 0 <= k < 11 implies w[d + k] == a[k] by {
                assert(w[d + k] == ft[k]);
            }
            assert forall|k: int| d + 4 <= k < d + 10 implies is_word(#[trigger] w[k]) by {
                assert(w[k] == a[k - d]);
            }
            assert(w[d + 10] == a[10]);
            lemma_word_end_exact(w, d + 4, d + 10);
            assert(w.subrange(d + 3, d + 10) =~= "dateAdd"@) by {
                assert forall|j: int| 0 <= j < 7 implies w.subrange(d + 3, d + 10)[j] == "dateAdd"@[j] by {
                    assert(w[d + 3 + j] == a[3 + j]);
                }
            }
            assert(w[d + 3] == a[3]);
            lemma_skip_none(w, d + 10);
            // the count
            let s0 = d + 11;
            assert forall|k: int| 0 <= k < sd.len() implies w[s0 + k] == sd[k] by {
                assert(w[d + 11 + k] == ft[11 + k]);
            }
            let c0 = s0 + sd.len();
            assert forall|k: int| 0 <= k < 3 implies w[c0 + k] == b[k] by {
                assert(w[c0 + k] == ft[11 + sd.len() + k]);
            }
            assert(w[s0] == sd[0]);
            lemma_skip_none(w, s0);
            let ds = if n < 0 { s0 + 1 } else { s0 };
            assert(sd =~= if n < 0 { seq!['-'] + digits } else { digits });
            assert forall|k: int| ds <= k < c0 implies is_digit(#[trigger] w[k]) by {
                assert(w[k] == sd[k - s0]);
                assert(sd[k - s0] == digits[k - ds]);
            }
            assert(w[c0] == b[0]);
            lemma_digits_end_exact(w, ds, c0);
            assert(w.subrange(ds, c0) =~= digits) by {
                assert forall|k: int| 0 <= k < digits.len() implies w.subrange(ds, c0)[k] == digits[k] by {
                    assert(w[ds + k] == sd[ds + k - s0]);
                }
            }
            assert(integer(w, s0) == Ok::<_, Failure>((n as int, c0)));
            // the unit
            assert(w[c0] == b[0]);
            assert(w[c0 + 1] == b[1]);
            assert(w[c0 + 2] == b[2]);
            lemma_skip_none(w, c0);
            lemma_skip_one(w, c0 + 1);
            let u0 = c0 + 3;
            assert forall|k: int| 0 <= k < u.len() implies w[u0 + k] == u[k] by {
                assert(w[u0 + k] == ft[11 + sd.len() + 3 + k]);
            }
            let e0 = u0 + u.len();
            assert forall|k: int| 0 <= k < 2 implies w[e0 + k] == c[k] by {
                assert(w[e0 + k] == ft[11 + sd.len() + 3 + u.len() + k]);
            }
            assert forall|k: int| u0 <= k < e0 implies #[trigger] w[k] != '\'' by {
                assert(w[k] == u[k - u0]);
            }
            assert(w[e0] == c[0]);
            lemma_unquoted_end_exact(w, u0, e0);
            assert(w.subrange(u0, e0) =~= u);
            assert(date_unit(w, c0 + 2) == Ok::<_, Failure>((unit, e0 + 1)));
            assert(w[e0] == c[0]);
            assert(w[e0 + 1] == c[1]);
            lemma_skip_none(w, e0 + 1);
        },
    }
}

proof fn lemma_filters_text_prefix(fs: Seq<Filter>, k: int)
    requires
        0 <= k <= fs.len(),
    ensures
        filters_text(fs.take(k)).len() <= filters_text(fs).len(),
        forall|j: int| 0 <= j < filters_text(fs.take(k)).len() ==>
            #[trigger] filters_text(fs.take(k))[j] == filters_text(fs)[j],
    decreases fs.len(),
{
    if k < fs.len() {
        assert(fs.drop_last().take(k) =~= fs.take(k));
        lemma_filters_text_prefix(fs.drop_last(), k);
    } else {
        assert(fs.take(k) =~= fs);
    }
}

proof fn lemma_filters_text_step(fs: Seq<Filter>, k: int)
    requires
        0 <= k < fs.len(),
    ensures
        filters_text(fs.take(k + 1)) == filters_text(fs.take(k)) + filter_text(fs[k]),
{
    assert(fs.take(k + 1).drop_last() =~= fs.take(k));
}

/// Where the text of the filters of `r` sits when `ref_text(r)` sits at `d`,
/// and what follows it.
proof fn lemma_filters_slot(r: RefView, w: Seq<char>, d: int)
    requires
        within(ref_text(r), w, d),
    ensures
        within(filters_text(r.filters), w, d + 3 + r.path.len()),
        w[d + 3 + r.path.len() + filters_text(r.filters).len()] == ' ',
        w[d + 4 + r.path.len() + filters_text(r.filters).len()] == '}',
        w[d + 5 + r.path.len() + filters_text(r.filters).len()] == '}',
        d + 5 + r.path.len() + filters_text(r.filters).len() < w.len(),
        ref_text(r).len() == 6 + r.path.len() + filters_text(r.filters).len(),
{
    reveal_strlit("{{ ");
    reveal_strlit(" }}");
    let all = filters_text(r.filters);
    let rt = ref_text(r);
    let base = d + 3 + r.path.len();
    assert(rt =~= "{{ "@ + r.path + all + " }}"@);
    assert forall|j: int| 0 <= j < all.len() implies w[base + j] == #[trigger] all[j] by {
        assert(w[d + (3 + r.path.len() + j)] == rt[3 + r.path.len() + j]);
    }
    let off = 3 + r.path.len() as int + all.len() as int;
    assert(w[d + off] == rt[off]);
    assert(w[d + off + 1] == rt[off + 1]);
    assert(w[d + off + 2] == rt[off + 2]);
}

/// Where the text of the `k`th filter sits, and what follows it.
proof fn lemma_filter_slot(fs: Seq<Filter>, w: Seq<char>, b: int, k: int)
    requires
        within(filters_text(fs), w, b),
        0 <= k < fs.len(),
        w[b + filters_text(fs).len()] == ' ',
        w[b + filters_text(fs).len() + 1] == '}',
        b + filters_text(fs).len() + 1 < w.len(),
    ensures
        b + filters_text(fs.take(k + 1)).len() + 1 < w.len(),
        within(filter_text(fs[k]), w, b + filters_text(fs.take(k)).len()),
        filters_text(fs.take(k + 1)).len() == filters_text(fs.take(k)).len() + filter_text(fs[k]).len(),
        w[b + filters_text(fs.take(k + 1)).len()] == ' ',
        !is_ws(w[b + filters_text(fs.take(k + 1)).len() + 1]),
{
    let all = filters_text(fs);
    lemma_filters_text_step(fs, k);
    lemma_filters_text_prefix(fs, k + 1);
    let before = filters_text(fs.take(k));
    let ft = filter_text(fs[k]);
    let bl = before.len() as int;
    assert forall|j: int| 0 <= j < ft.len() implies w[b + bl + j] == #[trigger] ft[j] by {
        assert(filters_text(fs.take(k + 1))[bl + j] == ft[j]);
        assert(w[b + (bl + j)] == all[bl + j]);
    }
    let after = filters_text(fs.take(k + 1));
    let al = after.len() as int;
    if k + 1 < fs.len() {
        lemma_filters_text_step(fs, k + 1);
        lemma_filters_text_prefix(fs, k + 2);
        lemma_filter_text_shape(fs[k + 1]);
        let next = filter_text(fs[k + 1]);
        assert(filters_text(fs.take(k + 2))[al] == next[0]);
        assert(filters_text(fs.take(k + 2))[al + 1] == next[1]);
        assert(w[b + al] == all[al]);
        assert(w[b + (al + 1)] == all[al + 1]);
    } else {
        assert(fs.take(k + 1) =~= fs);
    }
}

/// The filters of a canonical expression text parse back, from the `k`th on.
proof fn lemma_filters_reparse(r: RefView, w: Seq<char>, d: int, k: int)
    requires
        within(ref_text(r), w, d),
        0 <= k <= r.filters.len(),
    ensures
        filters(
            w,
            d + 4 + r.path.len() + filters_text(r.filters.take(k)).len(),
            d,
            r.path,
            r.filters.take(k),
        ) == Ok::<_, Failure>((r, d + ref_text(r).len())),
    decreases r.filters.len() - k,
{
    let fs = r.filters;
    let base = d + 3 + r.path.len();
    lemma_filters_slot(r, w, d);
    lemma_filters_text_prefix(fs, k);
    let before = filters_text(fs.take(k));
    let p = base + before.len() + 1;
    if k == fs.len() {
        assert(fs.take(k) =~= fs);
        assert(RefView { path: r.path, filters: fs.take(k) } == r);
    } else {
        lemma_filter_slot(fs, w, base, k);
        let ft = filter_text(fs[k]);
        lemma_filter_text_shape(fs[k]);
        let fstart = base + before.len();
        assert(w[fstart + 1] == ft[1]);
        assert(w[fstart + 2] == ft[2]);
        assert(w[fstart + 3] == ft[3]);
        lemma_skip_one(w, p + 1);
        lemma_filter_reparse(fs[k], w, fstart);
        let q = fstart + ft.len();
        lemma_skip_one(w, q);
        lemma_filters_reparse(r, w, d, k + 1);
        assert(fs.take(k).push(fs[k]) =~= fs.take(k + 1));
    }
}

/// A canonical expression text, placed anywhere, parses as that expression.
pub proof fn lemma_expr_reparse(r: RefView, w: Seq<char>, d: int)
    requires
        canon_path(r.path),
        within(ref_text(r), w, d),
    ensures
        expr(w, d) == Ok::<_, Failure>((r, d + ref_text(r).len())),
{
    reveal_strlit("{{ ");
    reveal_strlit(" }}");
    reveal_strlit("now()");
    let fs = r.filters;
    let all = filters_text(fs);
    let rt = ref_text(r);
    let path = r.path;
    assert(rt =~= "{{ "@ + path + all + " }}"@);
    assert(path.len() > 0);
    assert(w[d + 2] == rt[2]);
    assert(w[d + 3] == rt[3]);
    assert(rt[3] == path[0]);
    lemma_skip_one(w, d + 2);
    let pe = d + 3 + path.len();
    lemma_filters_slot(r, w, d);
    if fs.len() > 0 {
        lemma_filter_slot(fs, w, pe, 0);
        lemma_filter_text_shape(fs[0]);
        assert(fs.take(0) =~= Seq::<Filter>::empty());
        assert(w[pe + 0] == filter_text(fs[0])[0]);
        assert(w[pe + 1] == filter_text(fs[0])[1]);
    }
    assert(w[pe] == ' ');
    assert forall|k: int| 0 <= k < path.len() implies w[d + 3 + k] == #[trigger] path[k] by {
        assert(w[d + (3 + k)] == rt[3 + k]);
    }
    lemma_path_reparse(path, w, d + 3);
    lemma_skip_one(w, pe);
    lemma_filters_reparse(r, w, d, 0);
    assert(fs.take(0) =~= Seq::<Filter>::empty());
}

// ------------------------------------------------------------ templates

/// No `{{` starts inside `x`.
pub open spec fn no_open_pair(x: Seq<char>) -> bool {
    forall|j: int| 0 <= j < x.len() - 1 ==> !(#[trigger] x[j] == '{' && x[j + 1] == '{')
}

/// Segments in the shape the parser gives them: literal texts are never
/// empty, never adjacent, hold no `{{`, and do not end in `{` before an
/// expression; every path is in canonical spelling.
pub open spec fn canonical_segments(segs: Seq<SegmentView>) -> bool {
    forall|i: int| 0 <= i < segs.len() ==> match #[trigger] segs[i] {
        SegmentView::Text(x) => {
            &&& x.len() > 0
            &&& no_open_pair(x)
            &&& i + 1 < segs.len() ==> (segs[i + 1] is Ref && x.last() != '{')
        },
        SegmentView::Ref(r) => canon_path(r.path),
    }
}

proof fn lemma_filters_keep_path(t: Seq<char>, p: int, open: int, path: Seq<char>, fs: Seq<Filter>)
    requires
        0 <= p <= t.len(),
    ensures
        filters(t, p, open, path, fs) matches Ok((r, q)) ==> r.path == path,
    decreases t.len() - p,
{
    if at(t, p, '|') {
        lemma_skip_ws_bounds(t, p + 1);
        super::grammar::lemma_filter_bounds(t, skip_ws(t, p + 1));
        if let Ok((f, q)) = filter(t, skip_ws(t, p + 1)) {
            lemma_skip_ws_bounds(t, q);
            lemma_filters_keep_path(t, skip_ws(t, q), open, path, fs.push(f));
        }
    }
}

/// Every expression the parser produces has a canonical path.
proof fn lemma_expr_canonical(t: Seq<char>, open: int)
    requires
        0 <= open,
        open + 2 <= t.len(),
    ensures
        expr(t, open) matches Ok((r, q)) ==> canon_path(r.path),
{
    lemma_skip_ws_bounds(t, open + 2);
    let p = skip_ws(t, open + 2);
    if p < t.len() {
        lemma_path_canonical(t, p);
        super::grammar::lemma_path_bounds(t, p);
        if let Ok((path, q)) = path(t, p) {
            lemma_skip_ws_bounds(t, q);
            lemma_filters_keep_path(t, skip_ws(t, q), open, path, seq![]);
        }
    }
}

/// What the parser produces from position `i` on is canonical, given what
/// it produced before and the literal text it is in the middle of.
proof fn lemma_template_from_canonical(
    t: Seq<char>,
    i: int,
    text: Seq<char>,
    acc: Seq<SegmentView>,
)
    requires
        0 <= i <= t.len(),
        canonical_segments(acc),
        acc.len() > 0 ==> acc.last() is Ref,
        text.len() <= i,
        text == t.subrange(i - text.len(), i),
        forall|j: int| i - text.len() <= j < i ==> !(#[trigger] t[j] == '{' && at(t, j + 1, '{')),
    ensures
        template_from(t, i, text, acc) matches Ok(segs) ==> canonical_segments(segs),
    decreases t.len() - i,
{
    let segs0 = flush(acc, text);
    if text.len() > 0 {
        assert(no_open_pair(text)) by {
            assert forall|j: int| 0 <= j < text.len() - 1 implies !(#[trigger] text[j] == '{'
                && text[j + 1] == '{') by {
                let a = i - text.len();
                assert(text[j] == t[a + j]);
                assert(text[j + 1] == t[a + j + 1]);
            }
        }
        assert forall|k: int| 0 <= k < segs0.len() implies match #[trigger] segs0[k] {
            SegmentView::Text(x) => {
                &&& x.len() > 0
                &&& no_open_pair(x)
                &&& k + 1 < segs0.len() ==> (segs0[k + 1] is Ref && x.last() != '{')
            },
            SegmentView::Ref(r) => canon_path(r.path),
        } by {
            if k < acc.len() {
                assert(segs0[k] == acc[k]);
                if k + 1 < acc.len() {
                    assert(segs0[k + 1] == acc[k + 1]);
                }
            }
        }
    }
    if i < t.len() {
        if t[i] == '{' && at(t, i + 1, '{') {
            lemma_expr_bounds(t, i);
            lemma_expr_canonical(t, i);
            if let Ok((r, q)) = expr(t, i) {
                let acc2 = segs0.push(SegmentView::Ref(r));
                if text.len() > 0 {
                    assert(text.last() == t[i - 1]);
                }
                assert forall|k: int| 0 <= k < acc2.len() implies match #[trigger] acc2[k] {
                    SegmentView::Text(x) => {
                        &&& x.len() > 0
                        &&& no_open_pair(x)
                        &&& k + 1 < acc2.len() ==> (acc2[k + 1] is Ref && x.last() != '{')
                    },
                    SegmentView::Ref(r) => canon_path(r.path),
                } by {
                    if k < segs0.len() {
                        assert(acc2[k] == segs0[k]);
                        if k + 1 < segs0.len() {
                            assert(acc2[k + 1] == segs0[k + 1]);
                        }
                        if k < acc.len() {
                            assert(segs0[k] == acc[k]);
                            if k + 1 < acc.len() {
                                assert(segs0[k + 1] == acc[k + 1]);
                            }
                        }
                    }
                }
                assert(Seq::<char>::empty() =~= t.subrange(q, q));
                lemma_template_from_canonical(t, q, seq![], acc2);
            }
        } else {
            assert(text.push(t[i]) =~= t.subrange(i + 1 - text.push(t[i]).len(), i + 1));
            lemma_template_from_canonical(t, i + 1, text.push(t[i]), acc);
        }
    }
}

proof fn lemma_text_consume(
    w: Seq<char>,
    i: int,
    x: Seq<char>,
    text: Seq<char>,
    acc: Seq<SegmentView>,
)
    requires
        0 <= i,
        i + x.len() <= w.len(),
        forall|k: int| 0 <= k < x.len() ==> w[i + k] == #[trigger] x[k],
        forall|j: int| i <= j < i + x.len() ==> !(#[trigger] w[j] == '{' && at(w, j + 1, '{')),
    ensures
        template_from(w, i, text, acc) == template_from(w, i + x.len(), text + x, acc),
    decreases x.len(),
{
    if x.len() == 0 {
        assert(text + x =~= text);
    } else {
        assert(w[i] == x[0]);
        let rest = x.drop_first();
        assert forall|k: int| 0 <= k < rest.len() implies w[i + 1 + k] == #[trigger] rest[k] by {
            assert(w[i + (1 + k)] == x[1 + k]);
        }
        lemma_text_consume(w, i + 1, rest, text.push(x[0]), acc);
        assert(text.push(x[0]) + rest =~= text + x);
    }
}

proof fn lemma_segments_text_prefix(segs: Seq<SegmentView>, k: int)
    requires
        0 <= k <= segs.len(),
    ensures
        segments_text(segs.take(k)).len() <= segments_text(segs).len(),
        forall|j: int| 0 <= j < segments_text(segs.take(k)).len() ==>
            #[trigger] segments_text(segs.take(k))[j] == segments_text(segs)[j],
    decreases segs.len(),
{
    if k < segs.len() {
        assert(segs.drop_last().take(k) =~= segs.take(k));
        lemma_segments_text_prefix(segs.drop_last(), k);
    } else {
        assert(segs.take(k) =~= segs);
    }
}

proof fn lemma_segment_slot(segs: Seq<SegmentView>, k: int)
    requires
        0 <= k < segs.len(),
    ensures
        within(segment_text(segs[k]), segments_text(segs), segments_text(segs.take(k)).len() as int),
        segments_text(segs.take(k + 1)).len() == segments_text(segs.take(k)).len()
            + segment_text(segs[k]).len(),
{
    assert(segs.take(k + 1).drop_last() =~= segs.take(k));
    lemma_segments_text_prefix(segs, k + 1);
    let before = segments_text(segs.take(k));
    let x = segment_text(segs[k]);
    let bl = before.len() as int;
    assert forall|m: int| 0 <= m < x.len() implies segments_text(segs)[bl + m] == #[trigger] x[m] by {
        assert(segments_text(segs.take(k + 1))[bl + m] == x[m]);
    }
}

proof fn lemma_ref_starts(r: RefView)
    ensures
        ref_text(r).len() >= 2,
        ref_text(r)[0] == '{',
        ref_text(r)[1] == '{',
{
    reveal_strlit("{{ ");
    reveal_strlit(" }}");
}

/// Canonical segments, serialized, parse back from the `k`th on.
proof fn lemma_template_reparse(segs: Seq<SegmentView>, k: int)
    requires
        canonical_segments(segs),
        0 <= k <= segs.len(),
        k == 0 || segs[k - 1] is Ref,
    ensures
        template_from(
            segments_text(segs),
            segments_text(segs.take(k)).len() as int,
            seq![],
            segs.take(k),
        ) == Ok::<_, Failure>(segs),
    decreases segs.len() - k,
{
    let w = segments_text(segs);
    let i = segments_text(segs.take(k)).len() as int;
    if k == segs.len() {
        assert(segs.take(k) =~= segs);
    } else {
        lemma_segment_slot(segs, k);
        match segs[k] {
            SegmentView::Ref(r) => {
                lemma_ref_starts(r);
                assert(w[i] == ref_text(r)[0]);
                assert(w[i + 1] == ref_text(r)[1]);
                lemma_expr_reparse(r, w, i);
                assert(flush(segs.take(k), seq![]).push(SegmentView::Ref(r)) =~= segs.take(k + 1));
                lemma_template_reparse(segs, k + 1);
            },
            SegmentView::Text(x) => {
                assert(x.len() > 0 && no_open_pair(x));
                assert forall|j: int| i <= j < i + x.len() implies !(#[trigger] w[j] == '{'
                    && at(w, j + 1, '{')) by {
                    assert(w[j] == x[j - i]);
                    if j + 1 < i + x.len() {
                        assert(w[j + 1] == x[j + 1 - i]);
                    } else if k + 1 < segs.len() {
                        assert(x.last() == x[j - i]);
                    } else {
                        assert(segs.take(k + 1) =~= segs);
                    }
                }
                lemma_text_consume(w, i, x, seq![], segs.take(k));
                assert(Seq::<char>::empty() + x =~= x);
                let i2 = i + x.len();
                if k + 1 == segs.len() {
                    assert(segs.take(k + 1) =~= segs);
                    assert(flush(segs.take(k), x) =~= segs);
                } else {
                    lemma_segment_slot(segs, k + 1);
                    if let SegmentView::Ref(r) = segs[k + 1] {
                        lemma_ref_starts(r);
                        assert(w[i2] == ref_text(r)[0]);
                        assert(w[i2 + 1] == ref_text(r)[1]);
                        lemma_expr_reparse(r, w, i2);
                        assert(flush(segs.take(k), x).push(SegmentView::Ref(r)) =~= segs.take(k + 2));
                        assert(segs.take(k + 2).drop_last() =~= segs.take(k + 1));
                        lemma_template_reparse(segs, k + 2);
                    }
                }
            },
        }
    }
}

/// Every template the parser accepts yields canonical segments.
pub proof fn lemma_parsed_canonical(t: Seq<char>, segs: Seq<SegmentView>)
    requires
        template(t) == Ok::<_, Failure>(segs),
    ensures
        canonical_segments(segs),
{
    assert(Seq::<char>::empty() =~= t.subrange(0, 0));
    lemma_template_from_canonical(t, 0, seq![], seq![]);
}

/// Canonical spelling is a fixed point: when a template parses into
/// segments, the canonical text of those segments parses into the same
/// segments. So serializing and parsing again changes nothing, and
/// serializing is idempotent on parsed templates.
pub proof fn lemma_canonical_fixed_point(t: Seq<char>, segs: Seq<SegmentView>)
    requires
        template(t) == Ok::<_, Failure>(segs),
    ensures
        template(segments_text(segs)) == Ok::<_, Failure>(segs),
{
    assert(Seq::<char>::empty() =~= t.subrange(0, 0));
    lemma_template_from_canonical(t, 0, seq![], seq![]);
    lemma_template_reparse(segs, 0);
    assert(segs.take(0) =~= Seq::<SegmentView>::empty());
}

} // verus!
