//! Masking secret values inside JSON values.

use vstd::prelude::*;
use crate::json::{
    Json, JsonView, items_view, json_view, lemma_items_view, lemma_members_view, members_view,
};
use crate::text::{chars_of, push_char};

verus! {

/// What a secret is replaced with.
pub open spec fn stars() -> Seq<char> {
    seq!['*', '*', '*']
}

/// `s` with every occurrence of `pat` replaced by `***`, scanning from the
/// left and never overlapping (as `str::replace` does).
pub open spec fn replace_all(s: Seq<char>, pat: Seq<char>) -> Seq<char>
    decreases s.len(),
{
    if pat.len() == 0 || s.len() < pat.len() {
        s
    } else if s.take(pat.len() as int) == pat {
        stars() + replace_all(s.skip(pat.len() as int), pat)
    } else {
        seq![s[0]] + replace_all(s.skip(1), pat)
    }
}

/// `s` with each secret of `order` masked in turn.
pub open spec fn mask_all(s: Seq<char>, order: Seq<Seq<char>>) -> Seq<char>
    decreases order.len(),
{
    if order.len() == 0 {
        s
    } else {
        replace_all(mask_all(s, order.drop_last()), order.last())
    }
}

/// The secrets exactly `l` characters long, in their given order.
pub open spec fn with_len(secrets: Seq<Seq<char>>, l: nat) -> Seq<Seq<char>>
    decreases secrets.len(),
{
    if secrets.len() == 0 {
        Seq::empty()
    } else if secrets.last().len() == l {
        with_len(secrets.drop_last(), l).push(secrets.last())
    } else {
        with_len(secrets.drop_last(), l)
    }
}

/// The secrets of length at most `l` and at least one, longest first,
/// secrets of equal length in their given order.
pub open spec fn by_length(secrets: Seq<Seq<char>>, l: nat) -> Seq<Seq<char>>
    decreases l,
{
    if l == 0 {
        Seq::empty()
    } else {
        with_len(secrets, l) + by_length(secrets, (l - 1) as nat)
    }
}

pub open spec fn max_len(secrets: Seq<Seq<char>>) -> nat
    decreases secrets.len(),
{
    if secrets.len() == 0 {
        0
    } else {
        let m = max_len(secrets.drop_last());
        if secrets.last().len() > m { secrets.last().len() } else { m }
    }
}

/// The order in which secrets are masked: longest first, so that a secret
/// inside another never splits the longer one; empty secrets are dropped.
pub open spec fn redaction_order(secrets: Seq<Seq<char>>) -> Seq<Seq<char>> {
    by_length(secrets, max_len(secrets))
}

/// `v` with every string value masked, and every object key too when
/// `keys` holds.
pub open spec fn redacted(v: JsonView, order: Seq<Seq<char>>, keys: bool) -> JsonView
    decreases v, 0int,
{
    match v {
        JsonView::String(s) => JsonView::String(mask_all(s, order)),
        JsonView::Array(items) => JsonView::Array(redacted_items(items, order, keys)),
        JsonView::Object(members) => JsonView::Object(redacted_members(members, order, keys)),
        _ => v,
    }
}

pub open spec fn redacted_items(items: Seq<JsonView>, order: Seq<Seq<char>>, keys: bool) -> Seq<JsonView>
    decreases items, 1int,
{
    if items.len() == 0 {
        Seq::empty()
    } else {
        redacted_items(items.drop_last(), order, keys).push(redacted(items.last(), order, keys))
    }
}

/// An object key, masked when `keys` holds.
pub open spec fn redacted_key(k: Seq<char>, order: Seq<Seq<char>>, keys: bool) -> Seq<char> {
    if keys {
        mask_all(k, order)
    } else {
        k
    }
}

pub open spec fn redacted_members(
    members: Seq<(Seq<char>, JsonView)>,
    order: Seq<Seq<char>>,
    keys: bool,
) -> Seq<(Seq<char>, JsonView)>
    decreases members, 1int,
{
    if members.len() == 0 {
        Seq::empty()
    } else {
        redacted_members(members.drop_last(), order, keys).push(
            (redacted_key(members.last().0, order, keys), redacted(members.last().1, order, keys)),
        )
    }
}

/// Whether `pat` occurs in `s` at position `i`.
fn occurs_at(s: &Vec<char>, i: usize, pat: &Vec<char>) -> (b: bool)
    requires
        i <= s@.len(),
    ensures
        b == (i + pat@.len() <= s@.len() && s@.subrange(i as int, i + pat@.len()) == pat@),
{
    if pat.len() > s.len() - i {
        return false;
    }
    let mut k: usize = 0;
    while k < pat.len()
        invariant
            i + pat@.len() <= s@.len(),
            i + pat.len() <= s.len(),
            k <= pat@.len(),
            forall|j: int| 0 <= j < k ==> s@[i + j] == pat@[j],
        decreases pat@.len() - k,
    {
        if s[i + k] != pat[k] {
            assert(s@.subrange(i as int, i + pat@.len())[k as int] != pat@[k as int]);
            return false;
        }
        k = k + 1;
    }
    assert(s@.subrange(i as int, i + pat@.len()) =~= pat@);
    true
}

/// `s` with every occurrence of a non-empty `pat` replaced by `***`.
fn replace_secret(s: &Vec<char>, pat: &Vec<char>) -> (r: Vec<char>)
    ensures
        r@ == replace_all(s@, pat@),
{
    if pat.len() == 0 {
        return s.clone();
    }
    let mut out: Vec<char> = Vec::new();
    let mut i: usize = 0;
    proof {
        assert(s@.skip(0) =~= s@);
        assert(out@ + replace_all(s@, pat@) =~= replace_all(s@, pat@));
    }
    while i < s.len()
        invariant
            pat@.len() > 0,
            i <= s@.len(),
            out@ + replace_all(s@.skip(i as int), pat@) == replace_all(s@, pat@),
        decreases s@.len() - i,
    {
        let ghost rest = s@.skip(i as int);
        if occurs_at(s, i, pat) {
            proof {
                assert(rest.take(pat@.len() as int) =~= s@.subrange(i as int, i + pat@.len()));
                assert(rest.skip(pat@.len() as int) =~= s@.skip(i + pat@.len()));
                assert(out@ + replace_all(rest, pat@) =~= out@ + stars() + replace_all(s@.skip(i + pat@.len()), pat@));
            }
            out.push('*');
            out.push('*');
            out.push('*');
            i = i + pat.len();
            proof {
                assert(out@ =~= (out@.subrange(0, out@.len() - 3)) + stars());
            }
        } else {
            proof {
                if rest.len() >= pat@.len() {
                    assert(rest.take(pat@.len() as int) =~= s@.subrange(i as int, i + pat@.len()));
                }
                assert(rest.skip(1) =~= s@.skip(i + 1));
                assert(rest[0] == s@[i as int]);
                assert(out@ + replace_all(rest, pat@) =~= out@.push(s@[i as int]) + replace_all(s@.skip(i + 1), pat@));
            }
            out.push(s[i]);
            i = i + 1;
        }
    }
    proof {
        assert(s@.skip(i as int) =~= Seq::<char>::empty());
        assert(out@ + Seq::<char>::empty() =~= out@);
    }
    out
}

pub open spec fn char_views(v: Seq<Vec<char>>) -> Seq<Seq<char>> {
    v.map_values(|x: Vec<char>| x@)
}

pub open spec fn string_views(v: Seq<String>) -> Seq<Seq<char>> {
    v.map_values(|x: String| x@)
}

/// The secrets in the order they are masked.
fn masking_order(secrets: &[String]) -> (order: Vec<Vec<char>>)
    ensures
        char_views(order@) == redaction_order(string_views(secrets@)),
{
    let ghost sv = string_views(secrets@);
    let mut chars: Vec<Vec<char>> = Vec::new();
    let mut longest: usize = 0;
    let mut i: usize = 0;
    while i < secrets.len()
        invariant
            i <= secrets@.len(),
            sv == string_views(secrets@),
            char_views(chars@) == sv.take(i as int),
            longest == max_len(sv.take(i as int)),
        decreases secrets@.len() - i,
    {
        let c = chars_of(secrets[i].as_str());
        proof {
            assert(sv.take(i as int + 1).drop_last() =~= sv.take(i as int));
            assert(sv.take(i as int + 1).last() == c@);
        }
        if c.len() > longest {
            longest = c.len();
        }
        let ghost before = chars@;
        chars.push(c);
        proof {
            assert(char_views(chars@) =~= sv.take(i as int + 1));
        }
        i = i + 1;
    }
    proof {
        assert(sv.take(i as int) =~= sv);
    }
    let mut order: Vec<Vec<char>> = Vec::new();
    let mut l: usize = longest;
    proof {
        assert(char_views(order@) + by_length(sv, l as nat) =~= by_length(sv, longest as nat));
    }
    while l > 0
        invariant
            char_views(chars@) == sv,
            l <= longest,
            char_views(order@) + by_length(sv, l as nat) == by_length(sv, longest as nat),
        decreases l,
    {
        let ghost start = char_views(order@);
        let mut j: usize = 0;
        proof {
            assert(sv.take(0) =~= Seq::<Seq<char>>::empty());
            assert(start + with_len(sv.take(0), l as nat) =~= start);
        }
        while j < chars.len()
            invariant
                char_views(chars@) == sv,
                j <= chars@.len(),
                l > 0,
                char_views(order@) == start + with_len(sv.take(j as int), l as nat),
            decreases chars@.len() - j,
        {
            proof {
                assert(sv.take(j as int + 1).drop_last() =~= sv.take(j as int));
                assert(sv.take(j as int + 1).last() == chars@[j as int]@);
            }
            if chars[j].len() == l {
                let copy = chars[j].clone();
                proof {
                    assert(copy@ =~= chars@[j as int]@);
                }
                let ghost before = order@;
                order.push(copy);
                proof {
                    assert(chars@[j as int]@.len() == l);
                    assert(char_views(order@) =~= char_views(before).push(copy@));
                    assert(with_len(sv.take(j as int + 1), l as nat) == with_len(sv.take(j as int), l as nat).push(chars@[j as int]@));
                    assert(char_views(order@) =~= start + with_len(sv.take(j as int + 1), l as nat));
                }
            }
            j = j + 1;
        }
        proof {
            assert(sv.take(j as int) =~= sv);
            assert(by_length(sv, l as nat) == with_len(sv, l as nat) + by_length(sv, (l - 1) as nat));
            assert(char_views(order@) + by_length(sv, (l - 1) as nat) =~= start + by_length(sv, l as nat));
        }
        l = l - 1;
    }
    proof {
        assert(char_views(order@) + Seq::<Seq<char>>::empty() =~= char_views(order@));
    }
    order
}

/// `s` with each secret of `order` masked in turn.
fn mask_string(s: &String, order: &Vec<Vec<char>>) -> (r: String)
    ensures
        r@ == mask_all(s@, char_views(order@)),
{
    let mut current = chars_of(s.as_str());
    let mut k: usize = 0;
    while k < order.len()
        invariant
            k <= order@.len(),
            current@ == mask_all(s@, char_views(order@).take(k as int)),
        decreases order@.len() - k,
    {
        proof {
            assert(char_views(order@).take(k as int + 1).drop_last() =~= char_views(order@).take(k as int));
        }
        current = replace_secret(&current, &order[k]);
        k = k + 1;
    }
    proof {
        assert(char_views(order@).take(k as int) =~= char_views(order@));
    }
    super::parse::collect(current.as_slice(), 0, current.len())
}

/// `value` with every string value masked, and every object key too when
/// `keys` holds.
fn redacted_copy(value: &Json, order: &Vec<Vec<char>>, keys: bool) -> (r: Json)
    ensures
        json_view(r) == redacted(json_view(*value), char_views(order@), keys),
    decreases value,
{
    match value {
        Json::String(s) => {
            let masked = mask_string(s, order);
            proof {
                assert(masked@ =~= masked@.subrange(0, masked@.len() as int));
            }
            Json::String(masked)
        },
        Json::Array(items) => {
            let mut out: Vec<Json> = Vec::new();
            let mut i: usize = 0;
            proof {
                lemma_items_view(items@);
            }
            while i < items.len()
                invariant
                    *value is Array,
                    value->Array_0 == *items,
                    i <= items@.len(),
                    items_view(items@).len() == items@.len(),
                    forall|k: int| 0 <= k < items@.len() ==> #[trigger] items_view(items@)[k] == json_view(items@[k]),
                    items_view(out@) == redacted_items(items_view(items@).take(i as int), char_views(order@), keys),
                decreases items@.len() - i,
            {
                let ghost vs = items_view(items@);
                proof {
                    assert(vs.take(i as int + 1).drop_last() =~= vs.take(i as int));
                    assert(vs.take(i as int + 1).last() == json_view(items@[i as int]));
                    assert(decreases_to!(*value => value->Array_0));
                    assert(decreases_to!(*items => items@));
                    assert(decreases_to!(items@ => items@[i as int]));
                }
                let r = redacted_copy(&items[i], order, keys);
                let ghost before = out@;
                out.push(r);
                proof {
                    assert(out@.drop_last() =~= before);
                }
                i = i + 1;
            }
            proof {
                assert(items_view(items@).take(i as int) =~= items_view(items@));
            }
            Json::Array(out)
        },
        Json::Object(members) => {
            let mut out: Vec<(String, Json)> = Vec::new();
            let mut i: usize = 0;
            proof {
                lemma_members_view(members@);
            }
            while i < members.len()
                invariant
                    *value is Object,
                    value->Object_0 == *members,
                    i <= members@.len(),
                    members_view(members@).len() == members@.len(),
                    forall|k: int| 0 <= k < members@.len() ==> #[trigger] members_view(members@)[k] == (
                        members@[k].0@,
                        json_view(members@[k].1),
                    ),
                    members_view(out@) == redacted_members(
                        members_view(members@).take(i as int),
                        char_views(order@),
                        keys,
                    ),
                decreases members@.len() - i,
            {
                let ghost vs = members_view(members@);
                proof {
                    assert(vs.take(i as int + 1).drop_last() =~= vs.take(i as int));
                    assert(vs.take(i as int + 1).last() == vs[i as int]);
                    assert(decreases_to!(*value => value->Object_0));
                    assert(decreases_to!(*members => members@));
                    assert(decreases_to!(members@ => members@[i as int]));
                    assert(decreases_to!(members@[i as int] => members@[i as int].1));
                }
                let r = redacted_copy(&members[i].1, order, keys);
                let key = if keys { mask_string(&members[i].0, order) } else { members[i].0.clone() };
                let ghost before = out@;
                out.push((key, r));
                proof {
                    assert(out@.drop_last() =~= before);
                }
                i = i + 1;
            }
            proof {
                assert(members_view(members@).take(i as int) =~= members_view(members@));
            }
            Json::Object(out)
        },
        _ => value.copy(),
    }
}

/// Replaces every occurrence of each secret inside every string value of
/// `value` (recursively) with `***`; object keys are kept. Longer secrets
/// are masked first, so a secret inside another cannot leave part of the
/// longer one visible; empty secrets are ignored.
pub fn redact(value: &mut Json, secret_values: &[String])
    ensures
        json_view(*final(value)) == redacted(
            json_view(*old(value)),
            redaction_order(string_views(secret_values@)),
            false,
        ),
{
    let order = masking_order(secret_values);
    let masked = redacted_copy(value, &order, false);
    *value = masked;
}

/// What the engine stores or broadcasts of a value: `redact`, and every
/// object key masked as well, so that no secret reaches the database or a
/// client even as a key. A masked key keeps its place, so the members may
/// no longer be in key order.
pub fn redact_stored(value: &mut Json, secret_values: &[String])
    ensures
        json_view(*final(value)) == redacted(
            json_view(*old(value)),
            redaction_order(string_views(secret_values@)),
            true,
        ),
{
    let order = masking_order(secret_values);
    let masked = redacted_copy(value, &order, true);
    *value = masked;
}

/// Replaces every occurrence of each secret inside `text` with `***`, in
/// the order `redact` uses: longer secrets first, empty ones ignored.
pub fn redact_str(text: &str, secret_values: &[String]) -> (r: String)
    ensures
        r@ == mask_all(text@, redaction_order(string_views(secret_values@))),
{
    let order = masking_order(secret_values);
    mask_string(&text.to_owned(), &order)
}

proof fn lemma_redacted_unchanged(v: JsonView, keys: bool)
    ensures
        redacted(v, seq![], keys) == v,
    decreases v, 0int,
{
    match v {
        JsonView::Array(items) => lemma_redacted_items_unchanged(items, keys),
        JsonView::Object(members) => lemma_redacted_members_unchanged(members, keys),
        _ => {},
    }
}

proof fn lemma_redacted_items_unchanged(items: Seq<JsonView>, keys: bool)
    ensures
        redacted_items(items, seq![], keys) == items,
    decreases items, 1int,
{
    if items.len() > 0 {
        lemma_redacted_items_unchanged(items.drop_last(), keys);
        lemma_redacted_unchanged(items.last(), keys);
        assert(items.drop_last().push(items.last()) =~= items);
    }
}

proof fn lemma_redacted_members_unchanged(members: Seq<(Seq<char>, JsonView)>, keys: bool)
    ensures
        redacted_members(members, seq![], keys) == members,
    decreases members, 1int,
{
    if members.len() > 0 {
        lemma_redacted_members_unchanged(members.drop_last(), keys);
        lemma_redacted_unchanged(members.last().1, keys);
        assert(mask_all(members.last().0, seq![]) == members.last().0);
        assert(members.drop_last().push((members.last().0, members.last().1)) =~= members);
    }
}

proof fn lemma_no_order_from_empty(secrets: Seq<Seq<char>>, l: nat)
    requires
        forall|i: int| 0 <= i < secrets.len() ==> #[trigger] secrets[i].len() == 0,
    ensures
        by_length(secrets, l) == Seq::<Seq<char>>::empty(),
    decreases l,
{
    if l > 0 {
        lemma_with_len_none(secrets, l);
        lemma_no_order_from_empty(secrets, (l - 1) as nat);
        assert(with_len(secrets, l) + by_length(secrets, (l - 1) as nat) =~= Seq::<Seq<char>>::empty());
    }
}

proof fn lemma_with_len_none(secrets: Seq<Seq<char>>, l: nat)
    requires
        l > 0,
        forall|i: int| 0 <= i < secrets.len() ==> #[trigger] secrets[i].len() == 0,
    ensures
        with_len(secrets, l) == Seq::<Seq<char>>::empty(),
    decreases secrets.len(),
{
    if secrets.len() > 0 {
        lemma_with_len_none(secrets.drop_last(), l);
        assert(secrets.last() == secrets[secrets.len() - 1]);
    }
}

/// Redacting with no secret, or with only empty ones, changes nothing,
/// keys masked or not.
pub proof fn lemma_redact_without_secrets(v: JsonView, secrets: Seq<Seq<char>>, keys: bool)
    requires
        forall|i: int| 0 <= i < secrets.len() ==> #[trigger] secrets[i].len() == 0,
    ensures
        redacted(v, redaction_order(secrets), keys) == v,
{
    lemma_no_order_from_empty(secrets, max_len(secrets));
    assert(redaction_order(secrets) =~= seq![]);
    lemma_redacted_unchanged(v, keys);
}


proof fn lemma_with_len_members(secrets: Seq<Seq<char>>, l: nat)
    ensures
        forall|k: int| 0 <= k < with_len(secrets, l).len() ==> (#[trigger] with_len(secrets, l)[k]).len() == l
            && secrets.contains(with_len(secrets, l)[k]),
    decreases secrets.len(),
{
    if secrets.len() > 0 {
        let rest = secrets.drop_last();
        lemma_with_len_members(rest, l);
        let w = with_len(secrets, l);
        assert forall|k: int| 0 <= k < w.len() implies (#[trigger] w[k]).len() == l && secrets.contains(w[k]) by {
            if secrets.last().len() == l && k == w.len() - 1 {
                assert(w[k] == secrets.last());
                assert(secrets[secrets.len() - 1] == w[k]);
            } else {
                assert(w[k] == with_len(rest, l)[k]);
                let idx = choose|idx: int| 0 <= idx < rest.len() && rest[idx] == w[k];
                assert(secrets[idx] == rest[idx]);
            }
        }
    }
}

proof fn lemma_by_length_sorted(secrets: Seq<Seq<char>>, l: nat)
    ensures
        forall|k: int| 0 <= k < by_length(secrets, l).len() ==> 1 <= (#[trigger] by_length(secrets, l)[k]).len() <= l
            && secrets.contains(by_length(secrets, l)[k]),
        forall|i: int, j: int| 0 <= i < j < by_length(secrets, l).len() ==>
            (#[trigger] by_length(secrets, l)[i]).len() >= (#[trigger] by_length(secrets, l)[j]).len(),
    decreases l,
{
    if l > 0 {
        let w = with_len(secrets, l);
        let b = by_length(secrets, (l - 1) as nat);
        lemma_with_len_members(secrets, l);
        lemma_by_length_sorted(secrets, (l - 1) as nat);
        let r = by_length(secrets, l);
        assert(r == w + b);
        assert forall|k: int| 0 <= k < r.len() implies 1 <= (#[trigger] r[k]).len() <= l && secrets.contains(r[k]) by {
            if k < w.len() {
                assert(r[k] == w[k]);
            } else {
                assert(r[k] == b[k - w.len()]);
            }
        }
        assert forall|i: int, j: int| 0 <= i < j < r.len() implies (#[trigger] r[i]).len() >= (#[trigger] r[j]).len() by {
            if j < w.len() {
                assert(r[i] == w[i] && r[j] == w[j]);
            } else if i < w.len() {
                assert(r[i] == w[i] && r[j] == b[j - w.len()]);
            } else {
                assert(r[i] == b[i - w.len()] && r[j] == b[j - w.len()]);
            }
        }
    }
}

/// Secrets are masked longest first, each a non-empty secret that was
/// given: a secret inside another is never masked before the longer one.
pub proof fn lemma_redaction_longest_first(secrets: Seq<Seq<char>>)
    ensures
        forall|k: int| 0 <= k < redaction_order(secrets).len() ==> (#[trigger] redaction_order(secrets)[k]).len() >= 1
            && secrets.contains(redaction_order(secrets)[k]),
        forall|i: int, j: int| 0 <= i < j < redaction_order(secrets).len() ==>
            (#[trigger] redaction_order(secrets)[i]).len() >= (#[trigger] redaction_order(secrets)[j]).len(),
{
    lemma_by_length_sorted(secrets, max_len(secrets));
}


proof fn lemma_max_len_bounds(secrets: Seq<Seq<char>>, i: int)
    requires
        0 <= i < secrets.len(),
    ensures
        secrets[i].len() <= max_len(secrets),
    decreases secrets.len(),
{
    if i < secrets.len() - 1 {
        lemma_max_len_bounds(secrets.drop_last(), i);
        assert(secrets.drop_last()[i] == secrets[i]);
    }
}

proof fn lemma_with_len_has(secrets: Seq<Seq<char>>, i: int)
    requires
        0 <= i < secrets.len(),
    ensures
        with_len(secrets, secrets[i].len()).contains(secrets[i]),
    decreases secrets.len(),
{
    let l = secrets[i].len();
    if i == secrets.len() - 1 {
        assert(with_len(secrets, l) == with_len(secrets.drop_last(), l).push(secrets.last()));
        assert(with_len(secrets, l)[with_len(secrets, l).len() - 1] == secrets[i]);
    } else {
        lemma_with_len_has(secrets.drop_last(), i);
        assert(secrets.drop_last()[i] == secrets[i]);
        let w = with_len(secrets.drop_last(), l);
        let k = choose|k: int| 0 <= k < w.len() && w[k] == secrets[i];
        if secrets.last().len() == l {
            assert(with_len(secrets, l)[k] == w[k]);
        } else {
            assert(with_len(secrets, l) == w);
        }
    }
}

proof fn lemma_by_length_has(secrets: Seq<Seq<char>>, l: nat, i: int)
    requires
        0 <= i < secrets.len(),
        1 <= secrets[i].len() <= l,
    ensures
        by_length(secrets, l).contains(secrets[i]),
    decreases l,
{
    let w = with_len(secrets, l);
    let b = by_length(secrets, (l - 1) as nat);
    assert(by_length(secrets, l) == w + b);
    if secrets[i].len() == l {
        lemma_with_len_has(secrets, i);
        let k = choose|k: int| 0 <= k < w.len() && w[k] == secrets[i];
        assert((w + b)[k] == secrets[i]);
    } else {
        lemma_by_length_has(secrets, (l - 1) as nat, i);
        let k = choose|k: int| 0 <= k < b.len() && b[k] == secrets[i];
        assert((w + b)[w.len() + k] == secrets[i]);
    }
}

/// Every non-empty secret is masked.
pub proof fn lemma_redaction_covers_secrets(secrets: Seq<Seq<char>>, i: int)
    requires
        0 <= i < secrets.len(),
        secrets[i].len() >= 1,
    ensures
        redaction_order(secrets).contains(secrets[i]),
{
    lemma_max_len_bounds(secrets, i);
    lemma_by_length_has(secrets, max_len(secrets), i);
}


/// Whether `p` occurs somewhere in `s`.
pub open spec fn occurs_in(p: Seq<char>, s: Seq<char>) -> bool {
    exists|i: int| 0 <= i && i + p.len() <= s.len() && #[trigger] s.subrange(i, i + p.len()) == p
}

/// Whether `s` holds no `*`.
pub open spec fn star_free(s: Seq<char>) -> bool {
    forall|k: int| 0 <= k < s.len() ==> #[trigger] s[k] != '*'
}

/// Whether `p` occurs in no string value inside `v`, nor in any object
/// key when `keys` holds.
pub open spec fn free_of(v: JsonView, p: Seq<char>, keys: bool) -> bool
    decreases v, 0int,
{
    match v {
        JsonView::String(s) => !occurs_in(p, s),
        JsonView::Array(items) => items_free_of(items, p, keys),
        JsonView::Object(members) => members_free_of(members, p, keys),
        _ => true,
    }
}

pub open spec fn items_free_of(items: Seq<JsonView>, p: Seq<char>, keys: bool) -> bool
    decreases items, 1int,
{
    items.len() == 0 || (items_free_of(items.drop_last(), p, keys) && free_of(items.last(), p, keys))
}

pub open spec fn members_free_of(members: Seq<(Seq<char>, JsonView)>, p: Seq<char>, keys: bool) -> bool
    decreases members, 1int,
{
    members.len() == 0 || (
        members_free_of(members.drop_last(), p, keys)
        && (keys ==> !occurs_in(p, members.last().0))
        && free_of(members.last().1, p, keys)
    )
}

/// Where the output of masking holds no `*`, it is the input unchanged.
proof fn lemma_replace_prefix(t: Seq<char>, p: Seq<char>, k: int)
    requires
        0 <= k <= replace_all(t, p).len(),
        forall|j: int| 0 <= j < k ==> #[trigger] replace_all(t, p)[j] != '*',
    ensures
        k <= t.len(),
        replace_all(t, p).take(k) == t.take(k),
    decreases t.len(),
{
    let out = replace_all(t, p);
    if p.len() == 0 || t.len() < p.len() {
    } else if t.take(p.len() as int) == p {
        if k > 0 {
            assert(out[0] == '*');
        }
    } else if k > 0 {
        let rest = replace_all(t.skip(1), p);
        assert(out == seq![t[0]] + rest);
        assert forall|j: int| 0 <= j < k - 1 implies #[trigger] rest[j] != '*' by {
            assert(rest[j] == out[j + 1]);
        }
        lemma_replace_prefix(t.skip(1), p, k - 1);
        assert(out.take(k) =~= seq![t[0]] + rest.take(k - 1));
        assert(t.take(k) =~= seq![t[0]] + t.skip(1).take(k - 1));
    }
}

/// A piece of a string that does not hold a pattern does not hold it.
proof fn lemma_absent_in_skip(q: Seq<char>, s: Seq<char>, n: int)
    requires
        0 <= n <= s.len(),
        !occurs_in(q, s),
    ensures
        !occurs_in(q, s.skip(n)),
{
    let t = s.skip(n);
    assert forall|i: int| 0 <= i && i + q.len() <= t.len() implies #[trigger] t.subrange(i, i + q.len()) != q by {
        assert(t.subrange(i, i + q.len()) =~= s.subrange(i + n, i + n + q.len()));
    }
}

/// A non-empty pattern without `*` is gone once it is masked.
proof fn lemma_replaced_absent(s: Seq<char>, p: Seq<char>)
    requires
        p.len() > 0,
        star_free(p),
    ensures
        !occurs_in(p, replace_all(s, p)),
    decreases s.len(),
{
    let out = replace_all(s, p);
    let n = p.len() as int;
    if s.len() < p.len() {
    } else if s.take(n) == p {
        let rest = replace_all(s.skip(n), p);
        lemma_replaced_absent(s.skip(n), p);
        assert(out == stars() + rest);
        assert forall|i: int| 0 <= i && i + n <= out.len() implies #[trigger] out.subrange(i, i + n) != p by {
            if i < 3 {
                assert(out.subrange(i, i + n)[0] == '*');
                assert(p[0] != '*');
            } else {
                assert(out.subrange(i, i + n) =~= rest.subrange(i - 3, i - 3 + n));
            }
        }
    } else {
        let rest = replace_all(s.skip(1), p);
        lemma_replaced_absent(s.skip(1), p);
        assert(out == seq![s[0]] + rest);
        assert forall|i: int| 0 <= i && i + n <= out.len() implies #[trigger] out.subrange(i, i + n) != p by {
            if i == 0 {
                if out.subrange(0, n) == p {
                    assert forall|j: int| 0 <= j < n - 1 implies #[trigger] rest[j] != '*' by {
                        assert(rest[j] == out.subrange(0, n)[j + 1]);
                    }
                    lemma_replace_prefix(s.skip(1), p, n - 1);
                    assert(out.subrange(0, n) =~= seq![s[0]] + rest.take(n - 1));
                    assert(s.take(n) =~= seq![s[0]] + s.skip(1).take(n - 1));
                }
            } else {
                assert(out.subrange(i, i + n) =~= rest.subrange(i - 1, i - 1 + n));
            }
        }
    }
}

/// Masking one pattern brings no other non-empty pattern without `*` in.
proof fn lemma_replace_keeps_absent(s: Seq<char>, p: Seq<char>, q: Seq<char>)
    requires
        q.len() > 0,
        star_free(q),
        !occurs_in(q, s),
    ensures
        !occurs_in(q, replace_all(s, p)),
    decreases s.len(),
{
    let out = replace_all(s, p);
    let m = q.len() as int;
    if p.len() == 0 || s.len() < p.len() {
    } else if s.take(p.len() as int) == p {
        let rest = replace_all(s.skip(p.len() as int), p);
        lemma_absent_in_skip(q, s, p.len() as int);
        lemma_replace_keeps_absent(s.skip(p.len() as int), p, q);
        assert(out == stars() + rest);
        assert forall|i: int| 0 <= i && i + m <= out.len() implies #[trigger] out.subrange(i, i + m) != q by {
            if i < 3 {
                assert(out.subrange(i, i + m)[0] == '*');
                assert(q[0] != '*');
            } else {
                assert(out.subrange(i, i + m) =~= rest.subrange(i - 3, i - 3 + m));
            }
        }
    } else {
        let rest = replace_all(s.skip(1), p);
        lemma_absent_in_skip(q, s, 1);
        lemma_replace_keeps_absent(s.skip(1), p, q);
        assert(out == seq![s[0]] + rest);
        assert forall|i: int| 0 <= i && i + m <= out.len() implies #[trigger] out.subrange(i, i + m) != q by {
            if i == 0 {
                if out.subrange(0, m) == q {
                    assert forall|j: int| 0 <= j < m - 1 implies #[trigger] rest[j] != '*' by {
                        assert(rest[j] == out.subrange(0, m)[j + 1]);
                    }
                    lemma_replace_prefix(s.skip(1), p, m - 1);
                    assert(out.subrange(0, m) =~= seq![s[0]] + rest.take(m - 1));
                    assert(s.subrange(0, m) =~= seq![s[0]] + s.skip(1).take(m - 1));
                }
            } else {
                assert(out.subrange(i, i + m) =~= rest.subrange(i - 1, i - 1 + m));
            }
        }
    }
}

/// After masking every pattern of `order`, none of them that is non-empty
/// and free of `*` occurs.
proof fn lemma_masked_absent(s: Seq<char>, order: Seq<Seq<char>>, j: int)
    requires
        0 <= j < order.len(),
        order[j].len() > 0,
        star_free(order[j]),
    ensures
        !occurs_in(order[j], mask_all(s, order)),
    decreases order.len(),
{
    if j == order.len() - 1 {
        lemma_replaced_absent(mask_all(s, order.drop_last()), order.last());
    } else {
        lemma_masked_absent(s, order.drop_last(), j);
        lemma_replace_keeps_absent(mask_all(s, order.drop_last()), order.last(), order[j]);
    }
}

proof fn lemma_redacted_free_of(v: JsonView, order: Seq<Seq<char>>, j: int, keys: bool)
    requires
        0 <= j < order.len(),
        order[j].len() > 0,
        star_free(order[j]),
    ensures
        free_of(redacted(v, order, keys), order[j], keys),
    decreases v, 0int,
{
    match v {
        JsonView::String(s) => lemma_masked_absent(s, order, j),
        JsonView::Array(items) => lemma_redacted_items_free_of(items, order, j, keys),
        JsonView::Object(members) => lemma_redacted_members_free_of(members, order, j, keys),
        _ => {},
    }
}

proof fn lemma_redacted_items_free_of(items: Seq<JsonView>, order: Seq<Seq<char>>, j: int, keys: bool)
    requires
        0 <= j < order.len(),
        order[j].len() > 0,
        star_free(order[j]),
    ensures
        items_free_of(redacted_items(items, order, keys), order[j], keys),
    decreases items, 1int,
{
    if items.len() > 0 {
        lemma_redacted_items_free_of(items.drop_last(), order, j, keys);
        lemma_redacted_free_of(items.last(), order, j, keys);
        let r = redacted_items(items, order, keys);
        assert(r.drop_last() =~= redacted_items(items.drop_last(), order, keys));
    }
}

proof fn lemma_redacted_members_free_of(members: Seq<(Seq<char>, JsonView)>, order: Seq<Seq<char>>, j: int, keys: bool)
    requires
        0 <= j < order.len(),
        order[j].len() > 0,
        star_free(order[j]),
    ensures
        members_free_of(redacted_members(members, order, keys), order[j], keys),
    decreases members, 1int,
{
    if members.len() > 0 {
        lemma_redacted_members_free_of(members.drop_last(), order, j, keys);
        lemma_redacted_free_of(members.last().1, order, j, keys);
        lemma_masked_absent(members.last().0, order, j);
        let r = redacted_members(members, order, keys);
        assert(r.drop_last() =~= redacted_members(members.drop_last(), order, keys));
    }
}

/// After masking, a text holds none of the secrets that are non-empty and
/// hold no `*` (a secret made of stars could be spelled by the mask).
pub proof fn lemma_masked_text_hides_secrets(text: Seq<char>, secrets: Seq<Seq<char>>, i: int)
    requires
        0 <= i < secrets.len(),
        secrets[i].len() > 0,
        star_free(secrets[i]),
    ensures
        !occurs_in(secrets[i], mask_all(text, redaction_order(secrets))),
{
    lemma_redaction_covers_secrets(secrets, i);
    let order = redaction_order(secrets);
    let j = choose|j: int| 0 <= j < order.len() && order[j] == secrets[i];
    lemma_masked_absent(text, order, j);
}

/// After redaction, no string value of a value holds a secret that is
/// non-empty and holds no `*`; with `keys` (as `redact_stored` does), no
/// object key holds one either.
pub proof fn lemma_redaction_hides_secrets(v: JsonView, secrets: Seq<Seq<char>>, i: int, keys: bool)
    requires
        0 <= i < secrets.len(),
        secrets[i].len() > 0,
        star_free(secrets[i]),
    ensures
        free_of(redacted(v, redaction_order(secrets), keys), secrets[i], keys),
{
    lemma_redaction_covers_secrets(secrets, i);
    let order = redaction_order(secrets);
    let j = choose|j: int| 0 <= j < order.len() && order[j] == secrets[i];
    lemma_redacted_free_of(v, order, j, keys);
}

/// Whether `r` has the shape of `v`: the same keys in the same order, the
/// same array lengths, the same numbers, booleans and nulls, and a string
/// wherever `v` has one.
pub open spec fn same_shape(v: JsonView, r: JsonView) -> bool
    decreases v, 0int,
{
    match v {
        JsonView::String(_) => r is String,
        JsonView::Array(items) => r is Array && items_same_shape(items, r->Array_0),
        JsonView::Object(members) => r is Object && members_same_shape(members, r->Object_0),
        _ => r == v,
    }
}

pub open spec fn items_same_shape(items: Seq<JsonView>, rs: Seq<JsonView>) -> bool
    decreases items, 1int,
{
    rs.len() == items.len() && (items.len() == 0 || (
        items_same_shape(items.drop_last(), rs.drop_last()) && same_shape(items.last(), rs.last())
    ))
}

pub open spec fn members_same_shape(members: Seq<(Seq<char>, JsonView)>, rs: Seq<(Seq<char>, JsonView)>) -> bool
    decreases members, 1int,
{
    rs.len() == members.len() && (members.len() == 0 || (
        members_same_shape(members.drop_last(), rs.drop_last())
        && rs.last().0 == members.last().0
        && same_shape(members.last().1, rs.last().1)
    ))
}

proof fn lemma_items_keep_shape(items: Seq<JsonView>, order: Seq<Seq<char>>)
    ensures
        items_same_shape(items, redacted_items(items, order, false)),
    decreases items, 1int,
{
    if items.len() > 0 {
        lemma_items_keep_shape(items.drop_last(), order);
        lemma_redact_keeps_shape(items.last(), order);
        let r = redacted_items(items, order, false);
        assert(r.drop_last() =~= redacted_items(items.drop_last(), order, false));
    }
}

proof fn lemma_members_keep_shape(members: Seq<(Seq<char>, JsonView)>, order: Seq<Seq<char>>)
    ensures
        members_same_shape(members, redacted_members(members, order, false)),
    decreases members, 1int,
{
    if members.len() > 0 {
        lemma_members_keep_shape(members.drop_last(), order);
        lemma_redact_keeps_shape(members.last().1, order);
        let r = redacted_members(members, order, false);
        assert(r.drop_last() =~= redacted_members(members.drop_last(), order, false));
    }
}

/// Redaction keeps a value's shape: its keys and their order, its array
/// lengths, its numbers, booleans and nulls; only string values change.
pub proof fn lemma_redact_keeps_shape(v: JsonView, order: Seq<Seq<char>>)
    ensures
        same_shape(v, redacted(v, order, false)),
    decreases v, 0int,
{
    match v {
        JsonView::Array(items) => lemma_items_keep_shape(items, order),
        JsonView::Object(members) => lemma_members_keep_shape(members, order),
        _ => {},
    }
}

/// Masking a pattern that does not occur changes nothing.
proof fn lemma_replace_absent_unchanged(s: Seq<char>, p: Seq<char>)
    requires
        !occurs_in(p, s),
    ensures
        replace_all(s, p) == s,
    decreases s.len(),
{
    if p.len() == 0 || s.len() < p.len() {
    } else if s.take(p.len() as int) == p {
        let z: int = 0;
        assert(s.subrange(z, z + p.len()) == p);
        assert(occurs_in(p, s));
    } else {
        lemma_absent_in_skip(p, s, 1);
        lemma_replace_absent_unchanged(s.skip(1), p);
        assert(seq![s[0]] + s.skip(1) =~= s);
    }
}

proof fn lemma_mask_absent_unchanged(s: Seq<char>, order: Seq<Seq<char>>)
    requires
        forall|j: int| 0 <= j < order.len() ==> !occurs_in(#[trigger] order[j], s),
    ensures
        mask_all(s, order) == s,
    decreases order.len(),
{
    if order.len() > 0 {
        lemma_mask_absent_unchanged(s, order.drop_last());
        assert(!occurs_in(order[order.len() - 1], s));
        lemma_replace_absent_unchanged(s, order.last());
    }
}

/// A text that holds none of the non-empty secrets comes out of masking
/// unchanged.
pub proof fn lemma_clean_text_unchanged(text: Seq<char>, secrets: Seq<Seq<char>>)
    requires
        forall|i: int| 0 <= i < secrets.len() && (#[trigger] secrets[i]).len() > 0 ==> !occurs_in(secrets[i], text),
    ensures
        mask_all(text, redaction_order(secrets)) == text,
{
    lemma_redaction_longest_first(secrets);
    let order = redaction_order(secrets);
    assert forall|j: int| 0 <= j < order.len() implies !occurs_in(#[trigger] order[j], text) by {
        assert(order[j].len() >= 1 && secrets.contains(order[j]));
        let i = choose|i: int| 0 <= i < secrets.len() && secrets[i] == order[j];
        assert(secrets[i].len() > 0);
    }
    lemma_mask_absent_unchanged(text, order);
}

} // verus!
