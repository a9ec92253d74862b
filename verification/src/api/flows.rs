//! Flow ids from names, and schedule labels.

use vstd::prelude::*;
use crate::model::flow::{FlowDefinition, TriggerDef};
use crate::model::validate::{id_chars_valid, valid_id};
use crate::text::str_eq;
use crate::text::{
    chars_of, decimal, decimal_u64, first_non_ws, is_whitespace, parse_unsigned,
    parse_unsigned_chars, push_char, push_str, whitespace,
};

verus! {

/// What `str::to_lowercase` makes of a string (Unicode lowercase mapping).
pub uninterp spec fn lowercased(s: Seq<char>) -> Seq<char>;

/// The Unicode lowercase of a string, by `str::to_lowercase`. Named, not
/// stated.
#[verifier::external_body]
fn lowercase(s: &str) -> (r: String)
    ensures
        r@ == lowercased(s@),
{
    s.to_lowercase()
}

/// One character of a name, added to the slug so far: lowercase letters,
/// and digits once the slug has begun, are kept; anything else becomes a
/// single `_` between kept characters.
pub open spec fn slug_step(out: Seq<char>, c: char) -> Seq<char> {
    if ('a' <= c && c <= 'z') || (out.len() > 0 && '0' <= c && c <= '9') {
        out.push(c)
    } else if out.len() > 0 && out.last() != '_' {
        out.push('_')
    } else {
        out
    }
}

pub open spec fn slug_chars(s: Seq<char>) -> Seq<char>
    decreases s.len(),
{
    if s.len() == 0 {
        Seq::empty()
    } else {
        slug_step(slug_chars(s.drop_last()), s.last())
    }
}

pub open spec fn without_trailing_underscores(s: Seq<char>) -> Seq<char>
    decreases s.len(),
{
    if s.len() > 0 && s.last() == '_' {
        without_trailing_underscores(s.drop_last())
    } else {
        s
    }
}

/// The flow id made from a display name, when it makes a valid id.
pub open spec fn slug(name: Seq<char>) -> Option<Seq<char>> {
    let t = without_trailing_underscores(slug_chars(lowercased(name)));
    let u = if t.len() > 64 { t.take(64) } else { t };
    if valid_id(u) { Some(u) } else { None }
}

/// A flow id derived from a display name (`"My Flow!"` -> `"my_flow"`), or
/// `None` when nothing usable remains.
pub fn slugify_flow_id(name: &str) -> (r: Option<String>)
    ensures
        match r {
            Some(s) => slug(name@) == Some(s@),
            None => slug(name@) is None,
        },
{
    let lower = lowercase(name);
    let c = chars_of(lower.as_str());
    let mut out: Vec<char> = Vec::new();
    let mut i: usize = 0;
    while i < c.len()
        invariant
            i <= c@.len(),
            c@ == lowercased(name@),
            out@ == slug_chars(c@.take(i as int)),
        decreases c@.len() - i,
    {
        proof {
            assert(c@.take(i as int + 1).drop_last() =~= c@.take(i as int));
        }
        let ch = c[i];
        let n = out.len();
        if ('a' <= ch && ch <= 'z') || (n > 0 && '0' <= ch && ch <= '9') {
            out.push(ch);
        } else if n > 0 && out[n - 1] != '_' {
            out.push('_');
        }
        i = i + 1;
    }
    proof {
        assert(c@.take(i as int) =~= c@);
    }
    let ghost raw = out@;
    while out.len() > 0 && out[out.len() - 1] == '_'
        invariant
            without_trailing_underscores(out@) == without_trailing_underscores(raw),
        decreases out@.len(),
    {
        proof {
            assert(out@.drop_last() == out@.subrange(0, out@.len() - 1));
        }
        out.pop();
    }
    if out.len() > 64 {
        out.truncate(64);
    }
    if id_chars_valid(&out) {
        let s = crate::expr::parse::collect(out.as_slice(), 0, out.len());
        proof {
            assert(out@.subrange(0, out@.len() as int) =~= out@);
        }
        Some(s)
    } else {
        None
    }
}

// ------------------------------------------------------- schedule labels

/// One past the end of the run of non-blank characters from `i`.
pub open spec fn word_end(s: Seq<char>, i: int) -> int
    decreases s.len() - i,
{
    if 0 <= i < s.len() && !is_whitespace(s[i]) {
        word_end(s, i + 1)
    } else {
        i
    }
}

/// The words of `s` from `i` on, split at white space (`split_whitespace`).
pub open spec fn words_from(s: Seq<char>, i: int) -> Seq<Seq<char>>
    decreases s.len() - i,
{
    let a = first_non_ws(s, i);
    if i < 0 || a >= s.len() || a < i {
        Seq::empty()
    } else {
        let b = word_end(s, a);
        proof {
            lemma_word_end(s, a);
        }
        if b <= a {
            Seq::empty()
        } else {
            seq![s.subrange(a, b)] + words_from(s, b)
        }
    }
}

pub proof fn lemma_first_non_ws_ge(s: Seq<char>, i: int)
    requires
        0 <= i <= s.len(),
    ensures
        i <= first_non_ws(s, i) <= s.len(),
        first_non_ws(s, i) < s.len() ==> !is_whitespace(s[first_non_ws(s, i)]),
    decreases s.len() - i,
{
    if i < s.len() && is_whitespace(s[i]) {
        lemma_first_non_ws_ge(s, i + 1);
    }
}

pub proof fn lemma_word_end(s: Seq<char>, i: int)
    requires
        0 <= i <= s.len(),
    ensures
        i <= word_end(s, i) <= s.len(),
    decreases s.len() - i,
{
    if i < s.len() && !is_whitespace(s[i]) {
        lemma_word_end(s, i + 1);
    }
}

/// The words of a string, split at white space.
fn split_words(s: &str) -> (r: Vec<Vec<char>>)
    ensures
        r@.map_values(|w: Vec<char>| w@) == words_from(s@, 0),
{
    let c = chars_of(s);
    let mut out: Vec<Vec<char>> = Vec::new();
    let mut i: usize = 0;
    proof {
        assert(out@.map_values(|w: Vec<char>| w@) + words_from(c@, 0) =~= words_from(c@, 0));
    }
    while i < c.len()
        invariant
            i <= c@.len(),
            c@ == s@,
            out@.map_values(|w: Vec<char>| w@) + words_from(c@, i as int) == words_from(c@, 0),
        decreases c@.len() - i,
    {
        let ghost before = out@.map_values(|w: Vec<char>| w@);
        proof {
            lemma_first_non_ws_ge(c@, i as int);
        }
        let mut a = i;
        while a < c.len() && whitespace(c[a])
            invariant
                i <= a <= c@.len(),
                first_non_ws(c@, a as int) == first_non_ws(c@, i as int),
            decreases c@.len() - a,
        {
            a = a + 1;
        }
        if a >= c.len() {
            proof {
                assert(words_from(c@, i as int) =~= Seq::<Seq<char>>::empty());
                assert(words_from(c@, a as int) =~= Seq::<Seq<char>>::empty());
            }
            i = a;
        } else {
        proof {
            lemma_word_end(c@, a as int);
        }
        let mut b = a;
        while b < c.len() && !whitespace(c[b])
            invariant
                a <= b <= c@.len(),
                word_end(c@, b as int) == word_end(c@, a as int),
            decreases c@.len() - b,
        {
            b = b + 1;
        }
        let mut w: Vec<char> = Vec::new();
        let mut k = a;
        while k < b
            invariant
                a <= k <= b <= c@.len(),
                w@ == c@.subrange(a as int, k as int),
            decreases b - k,
        {
            w.push(c[k]);
            k = k + 1;
            proof {
                assert(w@ =~= c@.subrange(a as int, k as int));
            }
        }
        out.push(w);
        proof {
            assert(out@.map_values(|w: Vec<char>| w@) =~= before.push(c@.subrange(a as int, b as int)));
            assert(words_from(c@, i as int) == seq![c@.subrange(a as int, b as int)] + words_from(c@, b as int));
            assert(out@.map_values(|w: Vec<char>| w@) + words_from(c@, b as int) =~= before + words_from(c@, i as int));
        }
        i = b;
        }
    }
    proof {
        assert(words_from(c@, i as int) =~= Seq::<Seq<char>>::empty());
        assert(out@.map_values(|w: Vec<char>| w@) + Seq::<Seq<char>>::empty() =~= out@.map_values(|w: Vec<char>| w@));
    }
    out
}

/// The short name of a cron day of week; 0 and 7 are both Sunday.
pub open spec fn day_label(dow: int) -> Option<Seq<char>> {
    if dow == 0 || dow == 7 {
        Some("Sun"@)
    } else if dow == 1 {
        Some("Mon"@)
    } else if dow == 2 {
        Some("Tue"@)
    } else if dow == 3 {
        Some("Wed"@)
    } else if dow == 4 {
        Some("Thu"@)
    } else if dow == 5 {
        Some("Fri"@)
    } else if dow == 6 {
        Some("Sat"@)
    } else {
        None
    }
}

pub fn day_name(dow: u32) -> (r: Option<&'static str>)
    ensures
        match r {
            Some(s) => day_label(dow as int) == Some(s@),
            None => day_label(dow as int) is None,
        },
{
    if dow == 0 || dow == 7 {
        Some("Sun")
    } else if dow == 1 {
        Some("Mon")
    } else if dow == 2 {
        Some("Tue")
    } else if dow == 3 {
        Some("Wed")
    } else if dow == 4 {
        Some("Thu")
    } else if dow == 5 {
        Some("Fri")
    } else if dow == 6 {
        Some("Sat")
    } else {
        None
    }
}

/// A cron field as a `u32`, as `str::parse` reads it.
pub open spec fn field_number(f: Seq<char>) -> Option<int> {
    parse_unsigned(f, 0xffff_ffff)
}

/// Two decimal digits, zero-padded.
pub open spec fn two_digits(n: nat) -> Seq<char> {
    if n < 10 { seq!['0'] + decimal(n) } else { decimal(n) }
}

pub open spec fn star() -> Seq<char> {
    seq!['*']
}

/// A label for a 5-field cron expression: `M H * * *` is `daily · HH:MM`,
/// `M * * * *` is `hourly`, `M H * * D` is `weekly · <Day>`; any other
/// expression is shown as written.
pub open spec fn cron_label(cron: Seq<char>) -> Seq<char> {
    let f = words_from(cron, 0);
    if f.len() != 5 {
        cron
    } else {
        match field_number(f[0]) {
            Some(m) if m <= 59 => {
                if f[1] == star() && f[2] == star() && f[3] == star() && f[4] == star() {
                    "hourly"@
                } else {
                    match field_number(f[1]) {
                        Some(h) if h <= 23 && f[2] == star() && f[3] == star() => {
                            if f[4] == star() {
                                "daily · "@ + two_digits(h as nat) + seq![':'] + two_digits(m as nat)
                            } else {
                                match field_number(f[4]) {
                                    Some(d) => match day_label(d) {
                                        Some(day) => "weekly · "@ + day,
                                        None => cron,
                                    },
                                    None => cron,
                                }
                            }
                        },
                        _ => cron,
                    }
                }
            },
            _ => cron,
        }
    }
}

fn is_star(w: &Vec<char>) -> (b: bool)
    ensures
        b == (w@ == star()),
{
    let r = w.len() == 1 && w[0] == '*';
    proof {
        if r {
            assert(w@ =~= star());
        }
    }
    r
}

fn push_two_digits(out: &mut String, n: u64)
    requires
        n < 100,
    ensures
        final(out)@ == old(out)@ + two_digits(n as nat),
{
    let ghost start = out@;
    if n < 10 {
        push_char(out, '0');
    }
    let d = decimal_u64(n);
    push_str(out, d.as_str());
    proof {
        assert(out@ =~= start + two_digits(n as nat));
    }
}

/// A short label for a cron expression, or the expression itself.
pub fn humanize_cron(cron: &str) -> (r: String)
    ensures
        r@ == cron_label(cron@),
{
    let f = split_words(cron);
    proof {
        assert(f@.map_values(|w: Vec<char>| w@).len() == f@.len());
    }
    if f.len() != 5 {
        return cron.to_owned();
    }
    let ghost fv = f@.map_values(|w: Vec<char>| w@);
    proof {
        assert(fv[0] == f@[0]@);
        assert(fv[1] == f@[1]@);
        assert(fv[2] == f@[2]@);
        assert(fv[3] == f@[3]@);
        assert(fv[4] == f@[4]@);
    }
    let minute = parse_unsigned_chars(&f[0], 0xffff_ffff);
    if let Some(m) = minute {
        if m <= 59 {
            if is_star(&f[1]) && is_star(&f[2]) && is_star(&f[3]) && is_star(&f[4]) {
                return "hourly".to_owned();
            }
            if let Some(h) = parse_unsigned_chars(&f[1], 0xffff_ffff) {
                if h <= 23 && is_star(&f[2]) && is_star(&f[3]) {
                    if is_star(&f[4]) {
                        let mut out = "daily · ".to_owned();
                        push_two_digits(&mut out, h);
                        push_char(&mut out, ':');
                        push_two_digits(&mut out, m);
                        return out;
                    }
                    if let Some(d) = parse_unsigned_chars(&f[4], 0xffff_ffff) {
                        if let Some(day) = day_name(d as u32) {
                            let mut out = "weekly · ".to_owned();
                            push_str(&mut out, day);
                            return out;
                        }
                    }
                }
            }
        }
    }
    cron.to_owned()
}


/// The label of a flow's schedule: the first enabled schedule trigger's
/// cron, humanized; `manual` when no trigger is an enabled schedule.
pub open spec fn schedule_label(ts: Seq<TriggerDef>) -> Seq<char>
    decreases ts.len(),
{
    if ts.len() == 0 {
        "manual"@
    } else if ts[0].trigger_type@ == "schedule"@ && ts[0].enabled {
        cron_label(ts[0].cron@)
    } else {
        schedule_label(ts.skip(1))
    }
}

/// The human label of a flow's schedule.
pub fn schedule_human(def: &FlowDefinition) -> (r: String)
    ensures
        r@ == schedule_label(def.triggers@),
{
    let ts = &def.triggers;
    let mut i: usize = 0;
    proof {
        assert(ts@.skip(0) =~= ts@);
    }
    while i < ts.len()
        invariant
            i <= ts@.len(),
            ts@ == def.triggers@,
            schedule_label(ts@.skip(i as int)) == schedule_label(ts@),
        decreases ts@.len() - i,
    {
        let t = &ts[i];
        proof {
            assert(ts@.skip(i as int).len() > 0);
            assert(ts@.skip(i as int)[0] == ts@[i as int]);
        }
        if str_eq(t.trigger_type.as_str(), "schedule") && t.enabled {
            return humanize_cron(t.cron.as_str());
        }
        proof {
            assert(ts@.skip(i as int).skip(1) =~= ts@.skip(i + 1));
        }
        i = i + 1;
    }
    proof {
        assert(ts@.skip(i as int).len() == 0);
    }
    "manual".to_owned()
}

} // verus!
