//! Extracting declared outputs from a task's result.

use vstd::prelude::*;
use crate::expr::parse::collect;
use crate::json::{get_index, get_key, insert_member, insert_member_into, json_view, members_view, Json, JsonView};
use crate::model::OutputDef;
use crate::text::{all_digits, chars_of, is_ascii_digit, number_value, parse_unsigned, parse_unsigned_chars, push_str};

verus! {

/// The end of a key segment of an extract path: the first `.` or `[` at or
/// after `k`, or the end.
pub open spec fn segment_end(p: Seq<char>, k: int) -> int
    decreases p.len() - k,
{
    if k >= p.len() || p[k] == '.' || p[k] == '[' {
        k
    } else {
        segment_end(p, k + 1)
    }
}

/// The position of the first `]` at or after `k`, or the end.
pub open spec fn bracket_end(p: Seq<char>, k: int) -> int
    decreases p.len() - k,
{
    if k >= p.len() || p[k] == ']' {
        k
    } else {
        bracket_end(p, k + 1)
    }
}

/// Walks the rest of an extract path, from position `i`, into `v`:
/// `.key` selects an object member, `[n]` an array element.
pub open spec fn walk_path(v: JsonView, p: Seq<char>, i: int) -> Option<JsonView>
    decreases p.len() - i,
{
    if i < 0 || i >= p.len() {
        Some(v)
    } else if p[i] == '.' {
        let end = segment_end(p, i + 1);
        if end <= i + 1 {
            None
        } else {
            match get_key(v, p.subrange(i + 1, end)) {
                None => None,
                Some(w) => {
                    proof {
                        lemma_segment_end_bounds(p, i + 1);
                    }
                    walk_path(w, p, end)
                },
            }
        }
    } else if p[i] == '[' {
        let end = bracket_end(p, i + 1);
        if end >= p.len() || end < i + 1 {
            None
        } else {
            match parse_unsigned(p.subrange(i + 1, end), usize::MAX as int) {
                None => None,
                Some(n) => match get_index(v, n) {
                    None => None,
                    Some(w) => walk_path(w, p, end + 1),
                },
            }
        }
    } else {
        None
    }
}

/// What an extract path (`result.body.ids[0]`) selects in a task result:
/// the path starts with `result`, which is the result itself.
pub open spec fn extract(result: JsonView, path: Seq<char>) -> Option<JsonView> {
    if path.len() >= 6 && path.take(6) == seq!['r', 'e', 's', 'u', 'l', 't'] {
        walk_path(result, path.skip(6), 0)
    } else {
        None
    }
}

pub proof fn lemma_segment_end_bounds(p: Seq<char>, k: int)
    requires
        0 <= k,
    ensures
        k <= segment_end(p, k),
        segment_end(p, k) <= p.len() || segment_end(p, k) == k,
    decreases p.len() - k,
{
    if !(k >= p.len() || p[k] == '.' || p[k] == '[') {
        lemma_segment_end_bounds(p, k + 1);
    }
}

pub proof fn lemma_bracket_end_bounds(p: Seq<char>, k: int)
    requires
        0 <= k,
    ensures
        k <= bracket_end(p, k),
        bracket_end(p, k) <= p.len() || bracket_end(p, k) == k,
    decreases p.len() - k,
{
    if !(k >= p.len() || p[k] == ']') {
        lemma_bracket_end_bounds(p, k + 1);
    }
}

proof fn lemma_segment_end_shift(p: Seq<char>, i: int, k: int)
    requires
        0 <= i <= k,
        i <= p.len(),
    ensures
        segment_end(p, k) == i + segment_end(p.skip(i), k - i),
    decreases p.len() - k,
{
    if !(k >= p.len() || p[k] == '.' || p[k] == '[') {
        assert(p.skip(i)[k - i] == p[k]);
        lemma_segment_end_shift(p, i, k + 1);
    } else if k < p.len() {
        assert(p.skip(i)[k - i] == p[k]);
    }
}

proof fn lemma_bracket_end_shift(p: Seq<char>, i: int, k: int)
    requires
        0 <= i <= k,
        i <= p.len(),
    ensures
        bracket_end(p, k) == i + bracket_end(p.skip(i), k - i),
    decreases p.len() - k,
{
    if !(k >= p.len() || p[k] == ']') {
        assert(p.skip(i)[k - i] == p[k]);
        lemma_bracket_end_shift(p, i, k + 1);
    } else if k < p.len() {
        assert(p.skip(i)[k - i] == p[k]);
    }
}

/// Walking a path from position `i` is walking what is left of it.
proof fn lemma_walk_shift(v: JsonView, p: Seq<char>, i: int)
    requires
        0 <= i <= p.len(),
    ensures
        walk_path(v, p, i) == walk_path(v, p.skip(i), 0),
    decreases p.len() - i,
{
    let q = p.skip(i);
    if i < p.len() {
        assert(q[0] == p[i]);
        if p[i] == '.' {
            lemma_segment_end_shift(p, i, i + 1);
            lemma_segment_end_bounds(p, i + 1);
            let end = segment_end(p, i + 1);
            if end > i + 1 {
                assert(p.subrange(i + 1, end) =~= q.subrange(1, end - i));
                if let Some(w) = get_key(v, p.subrange(i + 1, end)) {
                    lemma_walk_shift(w, p, end);
                    lemma_walk_shift(w, q, end - i);
                    assert(q.skip(end - i) =~= p.skip(end));
                }
            }
        } else if p[i] == '[' {
            lemma_bracket_end_shift(p, i, i + 1);
            lemma_bracket_end_bounds(p, i + 1);
            let end = bracket_end(p, i + 1);
            if end < p.len() && end >= i + 1 {
                assert(p.subrange(i + 1, end) =~= q.subrange(1, end - i));
                if let Some(n) = parse_unsigned(p.subrange(i + 1, end), usize::MAX as int) {
                    if let Some(w) = get_index(v, n) {
                        lemma_walk_shift(w, p, end + 1);
                        lemma_walk_shift(w, q, end + 1 - i);
                        assert(q.skip(end + 1 - i) =~= p.skip(end + 1));
                    }
                }
            }
        }
    }
}

proof fn lemma_segment_end_over(p: Seq<char>, k: int, j: int)
    requires
        0 <= k <= j <= p.len(),
        forall|t: int| k <= t < j ==> #[trigger] p[t] != '.' && p[t] != '[',
        j == p.len() || p[j] == '.' || p[j] == '[',
    ensures
        segment_end(p, k) == j,
    decreases j - k,
{
    if k < j {
        lemma_segment_end_over(p, k + 1, j);
    }
}

proof fn lemma_bracket_end_over(p: Seq<char>, k: int, j: int)
    requires
        0 <= k <= j < p.len(),
        forall|t: int| k <= t < j ==> #[trigger] p[t] != ']',
        p[j] == ']',
    ensures
        bracket_end(p, k) == j,
    decreases j - k,
{
    if k < j {
        lemma_bracket_end_over(p, k + 1, j);
    }
}

/// The path `result` selects the whole result.
pub proof fn lemma_extract_whole(v: JsonView)
    ensures
        extract(v, seq!['r', 'e', 's', 'u', 'l', 't']) == Some(v),
{
    let r = seq!['r', 'e', 's', 'u', 'l', 't'];
    assert(r.take(6) =~= r);
    assert(r.skip(6).len() == 0);
}

/// A `.key` step selects that member of the result, and the rest of the
/// path is then walked from that member: `result.k…` from `v` is `result…`
/// from `v[k]`, none when `v` has no member `k`.
pub proof fn lemma_extract_key_step(v: JsonView, k: Seq<char>, rest: Seq<char>)
    requires
        k.len() > 0,
        forall|t: int| 0 <= t < k.len() ==> #[trigger] k[t] != '.' && k[t] != '[',
        rest.len() == 0 || rest[0] == '.' || rest[0] == '[',
    ensures
        extract(v, seq!['r', 'e', 's', 'u', 'l', 't', '.'] + k + rest) == match get_key(v, k) {
            Some(w) => extract(w, seq!['r', 'e', 's', 'u', 'l', 't'] + rest),
            None => None,
        },
{
    let r = seq!['r', 'e', 's', 'u', 'l', 't'];
    let path = seq!['r', 'e', 's', 'u', 'l', 't', '.'] + k + rest;
    let x = seq!['.'] + k + rest;
    assert(path.take(6) =~= r);
    assert(path.skip(6) =~= x);
    assert((r + rest).take(6) =~= r);
    assert((r + rest).skip(6) =~= rest);
    let end: int = 1 + k.len() as int;
    assert forall|t: int| 1 <= t < end implies #[trigger] x[t] != '.' && x[t] != '[' by {
        assert(x[t] == k[t - 1]);
    }
    if rest.len() > 0 {
        assert(x[end] == rest[0]);
    }
    lemma_segment_end_over(x, 1, end);
    assert(x.subrange(1, end) =~= k);
    if let Some(w) = get_key(v, k) {
        lemma_walk_shift(w, x, end);
        assert(x.skip(end) =~= rest);
    }
}

/// An `[n]` step selects element `n` of the result, and the rest of the
/// path is then walked from that element: `result[n]…` from `v` is
/// `result…` from `v[n]`, none when `v` has no element `n`.
pub proof fn lemma_extract_index_step(v: JsonView, digits: Seq<char>, rest: Seq<char>)
    requires
        digits.len() > 0,
        all_digits(digits),
        number_value(digits) <= usize::MAX,
    ensures
        extract(v, seq!['r', 'e', 's', 'u', 'l', 't', '['] + digits + seq![']'] + rest) == match get_index(v, number_value(digits)) {
            Some(w) => extract(w, seq!['r', 'e', 's', 'u', 'l', 't'] + rest),
            None => None,
        },
{
    let r = seq!['r', 'e', 's', 'u', 'l', 't'];
    let path = seq!['r', 'e', 's', 'u', 'l', 't', '['] + digits + seq![']'] + rest;
    let x = seq!['['] + digits + seq![']'] + rest;
    assert(path.take(6) =~= r);
    assert(path.skip(6) =~= x);
    assert((r + rest).take(6) =~= r);
    assert((r + rest).skip(6) =~= rest);
    let end: int = 1 + digits.len() as int;
    assert forall|t: int| 1 <= t < end implies #[trigger] x[t] != ']' by {
        assert(x[t] == digits[t - 1]);
        assert(is_ascii_digit(digits[t - 1]));
    }
    assert(x[end] == ']');
    lemma_bracket_end_over(x, 1, end);
    assert(x.subrange(1, end) =~= digits);
    assert(is_ascii_digit(digits[0]));
    assert(parse_unsigned(digits, usize::MAX as int) == Some(number_value(digits)));
    if let Some(w) = get_index(v, number_value(digits)) {
        lemma_walk_shift(w, x, end + 1);
        assert(x.skip(end + 1) =~= rest);
    }
}

/// Walks an extract path into a task result; `None` on a malformed path or
/// a missing key or index.
pub fn extract_path<'a>(result: &'a Json, path: &str) -> (r: Option<&'a Json>)
    ensures
        match r {
            Some(v) => extract(json_view(*result), path@) == Some(json_view(*v)),
            None => extract(json_view(*result), path@) is None,
        },
{
    let all = chars_of(path);
    if !(all.len() >= 6 && all[0] == 'r' && all[1] == 'e' && all[2] == 's' && all[3] == 'u' && all[4] == 'l' && all[5] == 't') {
        proof {
            if path@.len() >= 6 && path@.take(6) == seq!['r', 'e', 's', 'u', 'l', 't'] {
                assert(path@.take(6)[0] == 'r' && path@.take(6)[1] == 'e' && path@.take(6)[2] == 's');
                assert(path@.take(6)[3] == 'u' && path@.take(6)[4] == 'l' && path@.take(6)[5] == 't');
            }
        }
        return None;
    }
    proof {
        assert(path@.take(6) =~= seq!['r', 'e', 's', 'u', 'l', 't']);
    }
    let mut p: Vec<char> = Vec::new();
    let mut j: usize = 6;
    while j < all.len()
        invariant
            6 <= j <= all@.len(),
            p@ == all@.subrange(6, j as int),
        decreases all@.len() - j,
    {
        p.push(all[j]);
        proof {
            assert(p@ =~= all@.subrange(6, j + 1));
        }
        j = j + 1;
    }
    proof {
        assert(p@ =~= path@.skip(6));
    }
    let ghost want = walk_path(json_view(*result), p@, 0);
    let mut current: &Json = result;
    let mut i: usize = 0;
    while i < p.len()
        invariant
            i <= p@.len(),
            want == walk_path(json_view(*current), p@, i as int),
            want == extract(json_view(*result), path@),
        decreases p@.len() - i,
    {
        if p[i] == '.' {
            let start = i + 1;
            let mut end = start;
            while end < p.len() && p[end] != '.' && p[end] != '['
                invariant
                    start <= end <= p@.len(),
                    segment_end(p@, start as int) == segment_end(p@, end as int),
                decreases p@.len() - end,
            {
                end = end + 1;
            }
            if end == start {
                return None;
            }
            let key = collect(p.as_slice(), start, end);
            match current.get_key(key.as_str()) {
                None => {
                    return None;
                },
                Some(w) => {
                    current = w;
                },
            }
            i = end;
        } else if p[i] == '[' {
            let start = i + 1;
            let mut end = start;
            while end < p.len() && p[end] != ']'
                invariant
                    start <= end <= p@.len(),
                    bracket_end(p@, start as int) == bracket_end(p@, end as int),
                decreases p@.len() - end,
            {
                end = end + 1;
            }
            if end == p.len() {
                return None;
            }
            let mut digits: Vec<char> = Vec::new();
            let mut k: usize = start;
            while k < end
                invariant
                    start <= k <= end < p@.len(),
                    digits@ == p@.subrange(start as int, k as int),
                decreases end - k,
            {
                digits.push(p[k]);
                proof {
                    assert(digits@ =~= p@.subrange(start as int, k + 1));
                }
                k = k + 1;
            }
            match parse_unsigned_chars(&digits, usize::MAX as u64) {
                None => {
                    return None;
                },
                Some(n) => {
                    match current.get_index(n) {
                        None => {
                            return None;
                        },
                        Some(w) => {
                            current = w;
                        },
                    }
                },
            }
            i = end + 1;
        } else {
            return None;
        }
    }
    Some(current)
}

/// The message when an output's path selects nothing.
pub open spec fn missing_output(name: Seq<char>, path: Seq<char>) -> Seq<char> {
    "output \""@ + name + "\": path \""@ + path + "\" not found in task result"@
}

/// The outputs a task declares, extracted from its result: an object keyed
/// by output name, or the message for the first output whose path selects
/// nothing.
pub open spec fn outputs_of(result: JsonView, defs: Seq<OutputDef>) -> Result<Seq<(Seq<char>, JsonView)>, Seq<char>>
    decreases defs.len(),
{
    if defs.len() == 0 {
        Ok(seq![])
    } else {
        match outputs_of(result, defs.drop_last()) {
            Err(e) => Err(e),
            Ok(m) => match extract(result, defs.last().extract@) {
                None => Err(missing_output(defs.last().name@, defs.last().extract@)),
                Some(v) => Ok(insert_member(m, defs.last().name@, v)),
            },
        }
    }
}

/// The members of an object, or an error message, as sequences.
pub open spec fn members_outcome(r: Result<Vec<(String, Json)>, String>) -> Result<Seq<(Seq<char>, JsonView)>, Seq<char>> {
    match r {
        Ok(m) => Ok(members_view(m@)),
        Err(e) => Err(e@),
    }
}

/// Extracts every declared output from a (redacted) task result; a missing
/// path fails the task with a message naming the output and the path.
pub fn extract_outputs(result: &Json, defs: &Vec<OutputDef>) -> (r: Result<Vec<(String, Json)>, String>)
    ensures
        members_outcome(r) == outputs_of(json_view(*result), defs@),
{
    let mut outputs: Vec<(String, Json)> = Vec::new();
    let mut i: usize = 0;
    proof {
        assert(defs@.take(0) =~= Seq::<OutputDef>::empty());
    }
    while i < defs.len()
        invariant
            i <= defs@.len(),
            outputs_of(json_view(*result), defs@.take(i as int)) == Ok::<_, Seq<char>>(members_view(outputs@)),
        decreases defs@.len() - i,
    {
        let d = &defs[i];
        proof {
            assert(defs@.take(i + 1).drop_last() =~= defs@.take(i as int));
            assert(defs@.take(i + 1).last() == defs@[i as int]);
        }
        match extract_path(result, d.extract.as_str()) {
            Some(v) => {
                insert_member_into(&mut outputs, d.name.clone(), v.copy());
            },
            None => {
                let mut e = String::new();
                push_str(&mut e, "output \"");
                push_str(&mut e, d.name.as_str());
                push_str(&mut e, "\": path \"");
                push_str(&mut e, d.extract.as_str());
                push_str(&mut e, "\" not found in task result");
                proof {
                    assert(defs@.take(i + 1) =~= defs@.take(i + 1));
                }
                assert(outputs_of(json_view(*result), defs@.take(i + 1)) == Err::<Seq<(Seq<char>, JsonView)>, Seq<char>>(e@));
                proof {
                    lemma_outputs_error_persists(json_view(*result), defs@, i + 1, e@);
                }
                return Err(e);
            },
        }
        i = i + 1;
    }
    proof {
        assert(defs@.take(defs@.len() as int) =~= defs@);
    }
    Ok(outputs)
}

/// Once an output is missing, the error stays the error for longer lists.
proof fn lemma_outputs_error_persists(result: JsonView, defs: Seq<OutputDef>, k: int, e: Seq<char>)
    requires
        0 <= k <= defs.len(),
        outputs_of(result, defs.take(k)) == Err::<Seq<(Seq<char>, JsonView)>, Seq<char>>(e),
    ensures
        outputs_of(result, defs) == Err::<Seq<(Seq<char>, JsonView)>, Seq<char>>(e),
    decreases defs.len() - k,
{
    if k < defs.len() {
        assert(defs.take(k + 1).drop_last() =~= defs.take(k));
        lemma_outputs_error_persists(result, defs, k + 1, e);
    } else {
        assert(defs.take(k) =~= defs);
    }
}

} // verus!
