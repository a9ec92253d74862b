//! JSON values as the library handles them, and what they denote.

use vstd::prelude::*;
use serde_json::Value;
use crate::text::{chars_of, decimal_i64, decimal_u64, push_char, push_str, signed_decimal};

verus! {

/// A JSON number: a non-negative or a negative integer, or a number with a
/// fraction or exponent, kept as the text that spells it.
#[derive(Debug, Clone, PartialEq, Eq)]
pub enum Number {
    PosInt(u64),
    NegInt(i64),
    Float(String),
}

/// A JSON value. Object members are kept in the order of their keys, each
/// key once.
#[derive(Debug, PartialEq, Eq)]
pub enum Json {
    Null,
    Bool(bool),
    Number(Number),
    String(String),
    Array(Vec<Json>),
    Object(Vec<(String, Json)>),
}

/// What a [`Number`] denotes.
pub enum NumberView {
    Int(int),
    Float(Seq<char>),
}

/// What a [`Json`] value denotes.
pub enum JsonView {
    Null,
    Bool(bool),
    Number(NumberView),
    String(Seq<char>),
    Array(Seq<JsonView>),
    Object(Seq<(Seq<char>, JsonView)>),
}

pub open spec fn number_view(n: Number) -> NumberView {
    match n {
        Number::PosInt(u) => NumberView::Int(u as int),
        Number::NegInt(i) => NumberView::Int(i as int),
        Number::Float(s) => NumberView::Float(s@),
    }
}

pub open spec fn json_view(j: Json) -> JsonView
    decreases j, 0int,
{
    match j {
        Json::Null => JsonView::Null,
        Json::Bool(b) => JsonView::Bool(b),
        Json::Number(n) => JsonView::Number(number_view(n)),
        Json::String(s) => JsonView::String(s@),
        Json::Array(items) => JsonView::Array(items_view(items@)),
        Json::Object(members) => JsonView::Object(members_view(members@)),
    }
}

pub open spec fn items_view(items: Seq<Json>) -> Seq<JsonView>
    decreases items, 1int,
{
    if items.len() == 0 {
        Seq::empty()
    } else {
        items_view(items.drop_last()).push(json_view(items.last()))
    }
}

pub open spec fn members_view(members: Seq<(String, Json)>) -> Seq<(Seq<char>, JsonView)>
    decreases members, 1int,
{
    if members.len() == 0 {
        Seq::empty()
    } else {
        members_view(members.drop_last()).push((members.last().0@, json_view(members.last().1)))
    }
}

impl Json {
    /// What this value denotes.
    pub open spec fn view(&self) -> JsonView {
        json_view(*self)
    }
}

impl Number {
    pub fn copy(&self) -> (r: Number)
        ensures
            number_view(r) == number_view(*self),
    {
        match self {
            Number::PosInt(u) => Number::PosInt(*u),
            Number::NegInt(i) => Number::NegInt(*i),
            Number::Float(t) => Number::Float(t.clone()),
        }
    }
}

impl Json {
    /// A deep copy, denoting the same value.
    pub fn copy(&self) -> (r: Json)
        ensures
            json_view(r) == json_view(*self),
        decreases self,
    {
        match self {
            Json::Null => Json::Null,
            Json::Bool(b) => Json::Bool(*b),
            Json::Number(n) => Json::Number(n.copy()),
            Json::String(s) => Json::String(s.clone()),
            Json::Array(items) => {
                let mut out: Vec<Json> = Vec::new();
                let mut i: usize = 0;
                while i < items.len()
                    invariant
                        *self is Array,
                        self->Array_0 == *items,
                        i <= items@.len(),
                        items_view(out@) == items_view(items@.take(i as int)),
                    decreases items@.len() - i,
                {
                    proof {
                        assert(items@.take(i as int + 1).drop_last() =~= items@.take(i as int));
                    }
                    proof {
                        assert(decreases_to!(*self => self->Array_0));
                        assert(decreases_to!(*items => items@));
                        assert(decreases_to!(items@ => items@[i as int]));
                    }
                    let item = items[i].copy();
                    let ghost before = out@;
                    out.push(item);
                    proof {
                        assert(out@.drop_last() =~= before);
                    }
                    i = i + 1;
                }
                proof {
                    assert(items@.take(i as int) =~= items@);
                }
                Json::Array(out)
            },
            Json::Object(members) => {
                let mut out: Vec<(String, Json)> = Vec::new();
                let mut i: usize = 0;
                while i < members.len()
                    invariant
                        *self is Object,
                        self->Object_0 == *members,
                        i <= members@.len(),
                        members_view(out@) == members_view(members@.take(i as int)),
                    decreases members@.len() - i,
                {
                    proof {
                        assert(members@.take(i as int + 1).drop_last() =~= members@.take(i as int));
                    }
                    let key = members[i].0.clone();
                    proof {
                        assert(decreases_to!(*self => self->Object_0));
                        assert(decreases_to!(*members => members@));
                        assert(decreases_to!(members@ => members@[i as int]));
                        assert(decreases_to!(members@[i as int] => members@[i as int].1));
                    }
                    let value = members[i].1.copy();
                    let ghost before = out@;
                    out.push((key, value));
                    proof {
                        assert(out@.drop_last() =~= before);
                    }
                    i = i + 1;
                }
                proof {
                    assert(members@.take(i as int) =~= members@);
                }
                Json::Object(out)
            },
        }
    }
}

// ------------------------------------------------------------------ text

pub open spec fn hex_digit(d: int) -> char {
    if d == 0 { '0' }
    else if d == 1 { '1' }
    else if d == 2 { '2' }
    else if d == 3 { '3' }
    else if d == 4 { '4' }
    else if d == 5 { '5' }
    else if d == 6 { '6' }
    else if d == 7 { '7' }
    else if d == 8 { '8' }
    else if d == 9 { '9' }
    else if d == 10 { 'a' }
    else if d == 11 { 'b' }
    else if d == 12 { 'c' }
    else if d == 13 { 'd' }
    else if d == 14 { 'e' }
    else { 'f' }
}

/// How one character of a string is written inside JSON quotes.
pub open spec fn escape_char(c: char) -> Seq<char> {
    if c == '"' {
        seq!['\\', '"']
    } else if c == '\\' {
        seq!['\\', '\\']
    } else if c == '\n' {
        seq!['\\', 'n']
    } else if c == '\r' {
        seq!['\\', 'r']
    } else if c == '\t' {
        seq!['\\', 't']
    } else if c == '\x08' {
        seq!['\\', 'b']
    } else if c == '\x0c' {
        seq!['\\', 'f']
    } else if (c as int) < 0x20 {
        seq!['\\', 'u', '0', '0', hex_digit((c as int) / 16), hex_digit((c as int) % 16)]
    } else {
        seq![c]
    }
}

pub open spec fn escaped(s: Seq<char>) -> Seq<char>
    decreases s.len(),
{
    if s.len() == 0 {
        Seq::empty()
    } else {
        escaped(s.drop_last()) + escape_char(s.last())
    }
}

/// A string as a JSON string literal.
pub open spec fn quoted(s: Seq<char>) -> Seq<char> {
    seq!['"'] + escaped(s) + seq!['"']
}

pub open spec fn number_text(n: NumberView) -> Seq<char> {
    match n {
        NumberView::Int(i) => signed_decimal(i),
        NumberView::Float(t) => t,
    }
}

/// The compact JSON text of a value: no blanks, members in order.
pub open spec fn json_text(v: JsonView) -> Seq<char>
    decreases v, 0int,
{
    match v {
        JsonView::Null => "null"@,
        JsonView::Bool(b) => if b { "true"@ } else { "false"@ },
        JsonView::Number(n) => number_text(n),
        JsonView::String(s) => quoted(s),
        JsonView::Array(items) => seq!['['] + items_text(items) + seq![']'],
        JsonView::Object(members) => seq!['{'] + members_text(members) + seq!['}'],
    }
}

pub open spec fn items_text(items: Seq<JsonView>) -> Seq<char>
    decreases items, 1int,
{
    if items.len() == 0 {
        Seq::empty()
    } else if items.len() == 1 {
        json_text(items[0])
    } else {
        items_text(items.drop_last()) + seq![','] + json_text(items.last())
    }
}

pub open spec fn member_text(key: Seq<char>, value: JsonView) -> Seq<char>
    decreases value, 1int,
{
    quoted(key) + seq![':'] + json_text(value)
}

pub open spec fn members_text(members: Seq<(Seq<char>, JsonView)>) -> Seq<char>
    decreases members, 2int,
{
    if members.len() == 0 {
        Seq::empty()
    } else if members.len() == 1 {
        member_text(members[0].0, members[0].1)
    } else {
        members_text(members.drop_last()) + seq![','] + member_text(members.last().0, members.last().1)
    }
}

pub(crate) fn hex_char(d: u32) -> (c: char)
    requires
        d < 16,
    ensures
        c == hex_digit(d as int),
{
    if d == 0 { '0' }
    else if d == 1 { '1' }
    else if d == 2 { '2' }
    else if d == 3 { '3' }
    else if d == 4 { '4' }
    else if d == 5 { '5' }
    else if d == 6 { '6' }
    else if d == 7 { '7' }
    else if d == 8 { '8' }
    else if d == 9 { '9' }
    else if d == 10 { 'a' }
    else if d == 11 { 'b' }
    else if d == 12 { 'c' }
    else if d == 13 { 'd' }
    else if d == 14 { 'e' }
    else { 'f' }
}

fn write_escaped_char(out: &mut String, c: char)
    ensures
        final(out)@ == old(out)@ + escape_char(c),
{
    let ghost start = out@;
    if c == '"' {
        push_char(out, '\\');
        push_char(out, '"');
    } else if c == '\\' {
        push_char(out, '\\');
        push_char(out, '\\');
    } else if c == '\n' {
        push_char(out, '\\');
        push_char(out, 'n');
    } else if c == '\r' {
        push_char(out, '\\');
        push_char(out, 'r');
    } else if c == '\t' {
        push_char(out, '\\');
        push_char(out, 't');
    } else if c == '\x08' {
        push_char(out, '\\');
        push_char(out, 'b');
    } else if c == '\x0c' {
        push_char(out, '\\');
        push_char(out, 'f');
    } else if (c as u32) < 0x20 {
        let u = c as u32;
        push_char(out, '\\');
        push_char(out, 'u');
        push_char(out, '0');
        push_char(out, '0');
        push_char(out, hex_char(u / 16));
        push_char(out, hex_char(u % 16));
    } else {
        push_char(out, c);
    }
    proof {
        assert(out@ =~= start + escape_char(c));
    }
}

/// Appends `s` as a JSON string literal.
pub fn write_quoted(out: &mut String, s: &str)
    ensures
        final(out)@ == old(out)@ + quoted(s@),
{
    let ghost start = out@;
    push_char(out, '"');
    let mut i: usize = 0;
    let chars = crate::text::chars_of(s);
    while i < chars.len()
        invariant
            chars@ == s@,
            i <= chars@.len(),
            out@ == start + seq!['"'] + escaped(chars@.take(i as int)),
        decreases chars@.len() - i,
    {
        proof {
            assert(chars@.take(i as int + 1).drop_last() =~= chars@.take(i as int));
        }
        write_escaped_char(out, chars[i]);
        i = i + 1;
        proof {
            assert(out@ =~= start + seq!['"'] + escaped(chars@.take(i as int)));
        }
    }
    push_char(out, '"');
    proof {
        assert(chars@.take(i as int) =~= s@);
        assert(out@ =~= start + quoted(s@));
    }
}

impl Json {
    /// Appends the compact JSON text of this value.
    pub fn write_text(&self, out: &mut String)
        ensures
            final(out)@ == old(out)@ + json_text(json_view(*self)),
        decreases self,
    {
        let ghost start = out@;
        match self {
            Json::Null => push_str(out, "null"),
            Json::Bool(b) => {
                if *b {
                    push_str(out, "true")
                } else {
                    push_str(out, "false")
                }
            },
            Json::Number(n) => match n {
                Number::PosInt(u) => {
                    let t = decimal_u64(*u);
                    push_str(out, t.as_str());
                },
                Number::NegInt(i) => {
                    let t = decimal_i64(*i);
                    push_str(out, t.as_str());
                },
                Number::Float(t) => push_str(out, t.as_str()),
            },
            Json::String(s) => write_quoted(out, s.as_str()),
            Json::Array(items) => {
                push_char(out, '[');
                let mut i: usize = 0;
                while i < items.len()
                    invariant
                        *self is Array,
                        self->Array_0 == *items,
                        i <= items@.len(),
                        out@ == start + seq!['['] + items_text(items_view(items@.take(i as int))),
                    decreases items@.len() - i,
                {
                    proof {
                        assert(items@.take(i as int + 1).drop_last() =~= items@.take(i as int));
                        assert(decreases_to!(*self => self->Array_0));
                        assert(decreases_to!(*items => items@));
                        assert(decreases_to!(items@ => items@[i as int]));
                    }
                    if i > 0 {
                        push_char(out, ',');
                    }
                    items[i].write_text(out);
                    i = i + 1;
                    proof {
                        let vs = items_view(items@.take(i as int));
                        assert(vs.drop_last() =~= items_view(items@.take(i as int - 1)));
                        assert(out@ =~= start + seq!['['] + items_text(vs));
                    }
                }
                push_char(out, ']');
                proof {
                    assert(items@.take(i as int) =~= items@);
                }
            },
            Json::Object(members) => {
                push_char(out, '{');
                let mut i: usize = 0;
                while i < members.len()
                    invariant
                        *self is Object,
                        self->Object_0 == *members,
                        i <= members@.len(),
                        out@ == start + seq!['{'] + members_text(members_view(members@.take(i as int))),
                    decreases members@.len() - i,
                {
                    proof {
                        assert(members@.take(i as int + 1).drop_last() =~= members@.take(i as int));
                        assert(decreases_to!(*self => self->Object_0));
                        assert(decreases_to!(*members => members@));
                        assert(decreases_to!(members@ => members@[i as int]));
                        assert(decreases_to!(members@[i as int] => members@[i as int].1));
                    }
                    if i > 0 {
                        push_char(out, ',');
                    }
                    write_quoted(out, members[i].0.as_str());
                    push_char(out, ':');
                    members[i].1.write_text(out);
                    i = i + 1;
                    proof {
                        let vs = members_view(members@.take(i as int));
                        let k = members@[i as int - 1];
                        assert(vs.drop_last() =~= members_view(members@.take(i as int - 1)));
                        assert(members@.take(i as int).last() == k);
                        assert(vs.last() == (k.0@, json_view(k.1)));
                        assert(member_text(k.0@, json_view(k.1)) == quoted(k.0@) + seq![':'] + json_text(json_view(k.1)));
                        if i == 1 {
                            assert(vs[0] == vs.last());
                        }
                        assert(out@ =~= start + seq!['{'] + members_text(vs));
                    }
                }
                push_char(out, '}');
                proof {
                    assert(members@.take(i as int) =~= members@);
                }
            },
        }
    }

    /// The compact JSON text of this value.
    pub fn to_text(&self) -> (s: String)
        ensures
            s@ == json_text(json_view(*self)),
    {
        let mut s = String::new();
        self.write_text(&mut s);
        proof {
            assert(s@ =~= json_text(json_view(*self)));
        }
        s
    }
}

/// The member a key names in an object, the first one when it occurs
/// more than once.
pub open spec fn member<V>(members: Seq<(Seq<char>, V)>, key: Seq<char>) -> Option<V>
    decreases members.len(),
{
    if members.len() == 0 {
        None
    } else if members[0].0 == key {
        Some(members[0].1)
    } else {
        member(members.drop_first(), key)
    }
}

/// The value under `key` when `v` is an object that has it.
pub open spec fn get_key(v: JsonView, key: Seq<char>) -> Option<JsonView> {
    match v {
        JsonView::Object(members) => member(members, key),
        _ => None,
    }
}

/// The element at `index` when `v` is an array that long.
pub open spec fn get_index(v: JsonView, index: int) -> Option<JsonView> {
    match v {
        JsonView::Array(items) => if 0 <= index < items.len() {
            Some(items[index])
        } else {
            None
        },
        _ => None,
    }
}

proof fn lemma_members_view_index(members: Seq<(String, Json)>, i: int)
    requires
        0 <= i < members.len(),
    ensures
        members_view(members).len() == members.len(),
        members_view(members)[i] == (members[i].0@, json_view(members[i].1)),
    decreases members.len(),
{
    if i < members.len() - 1 {
        lemma_members_view_index(members.drop_last(), i);
    }
    lemma_members_view_len(members);
}

proof fn lemma_members_view_len(members: Seq<(String, Json)>)
    ensures
        members_view(members).len() == members.len(),
    decreases members.len(),
{
    if members.len() > 0 {
        lemma_members_view_len(members.drop_last());
    }
}

pub proof fn lemma_items_view(items: Seq<Json>)
    ensures
        items_view(items).len() == items.len(),
        forall|i: int| 0 <= i < items.len() ==> #[trigger] items_view(items)[i] == json_view(items[i]),
    decreases items.len(),
{
    if items.len() > 0 {
        lemma_items_view(items.drop_last());
        assert forall|i: int| 0 <= i < items.len() implies #[trigger] items_view(items)[i] == json_view(items[i]) by {
            if i < items.len() - 1 {
                assert(items_view(items.drop_last())[i] == json_view(items.drop_last()[i]));
            }
        }
    }
}

pub proof fn lemma_members_view(members: Seq<(String, Json)>)
    ensures
        members_view(members).len() == members.len(),
        forall|i: int| 0 <= i < members.len() ==> #[trigger] members_view(members)[i] == (
            members[i].0@,
            json_view(members[i].1),
        ),
{
    lemma_members_view_len(members);
    assert forall|i: int| 0 <= i < members.len() implies #[trigger] members_view(members)[i] == (
        members[i].0@,
        json_view(members[i].1),
    ) by {
        lemma_members_view_index(members, i);
    }
}

impl Json {
    /// The value under `key`, when this is an object that has it.
    pub fn get_key(&self, key: &str) -> (r: Option<&Json>)
        ensures
            match r {
                Some(v) => get_key(json_view(*self), key@) == Some(json_view(*v)),
                None => get_key(json_view(*self), key@) is None,
            },
    {
        match self {
            Json::Object(members) => {
                proof {
                    lemma_members_view(members@);
                }
                let mut i: usize = 0;
                proof {
                    assert(members_view(members@).skip(0) =~= members_view(members@));
                }
                while i < members.len()
                    invariant
                        *self is Object,
                        self->Object_0 == *members,
                        i <= members@.len(),
                        members_view(members@).len() == members@.len(),
                        forall|k: int| 0 <= k < members@.len() ==> #[trigger] members_view(members@)[k] == (
                            members@[k].0@,
                            json_view(members@[k].1),
                        ),
                        member(members_view(members@), key@) == member(
                            members_view(members@).skip(i as int),
                            key@,
                        ),
                    decreases members@.len() - i,
                {
                    let ghost rest = members_view(members@).skip(i as int);
                    if crate::text::str_eq(members[i].0.as_str(), key) {
                        assert(rest[0] == members_view(members@)[i as int]);
                        return Some(&members[i].1);
                    }
                    proof {
                        assert(rest.drop_first() =~= members_view(members@).skip(i as int + 1));
                    }
                    i = i + 1;
                }
                proof {
                    assert(members_view(members@).skip(i as int).len() == 0);
                }
                None
            },
            _ => None,
        }
    }

    /// The element at `index`, when this is an array that long.
    pub fn get_index(&self, index: u64) -> (r: Option<&Json>)
        ensures
            match r {
                Some(v) => get_index(json_view(*self), index as int) == Some(json_view(*v)),
                None => get_index(json_view(*self), index as int) is None,
            },
    {
        match self {
            Json::Array(items) => {
                proof {
                    lemma_items_view(items@);
                }
                if index < items.len() as u64 {
                    Some(&items[index as usize])
                } else {
                    None
                }
            },
            _ => None,
        }
    }
}

/// Whether key `a` sorts before key `b`: character by character, a proper
/// prefix first (the order of `String`).
pub open spec fn key_lt(a: Seq<char>, b: Seq<char>) -> bool
    decreases a.len(),
{
    if a.len() == 0 {
        b.len() > 0
    } else if b.len() == 0 {
        false
    } else if a[0] != b[0] {
        a[0] < b[0]
    } else {
        key_lt(a.drop_first(), b.drop_first())
    }
}

/// Whether key `a` sorts before key `b`.
pub fn key_less(a: &str, b: &str) -> (r: bool)
    ensures
        r == key_lt(a@, b@),
{
    let x = chars_of(a);
    let y = chars_of(b);
    let mut i: usize = 0;
    proof {
        assert(x@.skip(0) =~= x@);
        assert(y@.skip(0) =~= y@);
    }
    while i < x.len() && i < y.len()
        invariant
            i <= x@.len(),
            i <= y@.len(),
            key_lt(a@, b@) == key_lt(x@.skip(i as int), y@.skip(i as int)),
        decreases x@.len() - i,
    {
        if x[i] != y[i] {
            return x[i] < y[i];
        }
        proof {
            assert(x@.skip(i as int).drop_first() =~= x@.skip(i + 1));
            assert(y@.skip(i as int).drop_first() =~= y@.skip(i + 1));
        }
        i = i + 1;
    }
    i == x.len() && i < y.len()
}

/// The members of an object after inserting `value` under `key`: the
/// member with that key is replaced, else the new member goes where its key
/// sorts, before the first member whose key does not sort before it.
pub open spec fn insert_member<V>(m: Seq<(Seq<char>, V)>, key: Seq<char>, value: V) -> Seq<(Seq<char>, V)>
    decreases m.len(),
{
    if m.len() == 0 {
        seq![(key, value)]
    } else if m[0].0 == key {
        seq![(key, value)] + m.drop_first()
    } else if key_lt(key, m[0].0) {
        seq![(key, value)] + m
    } else {
        seq![m[0]] + insert_member(m.drop_first(), key, value)
    }
}

/// Inserts `value` under `key` into object members, as a map sorted by key
/// does.
pub fn insert_member_into(members: &mut Vec<(String, Json)>, key: String, value: Json)
    ensures
        members_view(final(members)@) == insert_member(members_view(old(members)@), key@, json_view(value)),
{
    proof {
        lemma_members_view(members@);
    }
    let ghost m = members_view(members@);
    let mut i: usize = 0;
    proof {
        assert(m.skip(0) =~= m);
        assert(m.take(0) + insert_member(m.skip(0), key@, json_view(value)) =~= insert_member(m, key@, json_view(value)));
    }
    while i < members.len() && !crate::text::str_eq(members[i].0.as_str(), key.as_str())
        && !key_less(key.as_str(), members[i].0.as_str())
        invariant
            i <= members@.len(),
            m == members_view(members@),
            m.len() == members@.len(),
            forall|k: int| 0 <= k < members@.len() ==> #[trigger] m[k] == (members@[k].0@, json_view(members@[k].1)),
            insert_member(m, key@, json_view(value)) == m.take(i as int) + insert_member(m.skip(i as int), key@, json_view(value)),
        decreases members@.len() - i,
    {
        let ghost rest = m.skip(i as int);
        assert(rest[0] == m[i as int]);
        proof {
            assert(rest.drop_first() =~= m.skip(i + 1));
            assert(m.take(i + 1) =~= m.take(i as int).push(m[i as int]));
            assert(seq![m[i as int]] + insert_member(m.skip(i + 1), key@, json_view(value))
                == insert_member(rest, key@, json_view(value)));
            assert(m.take(i as int) + insert_member(rest, key@, json_view(value))
                =~= m.take(i + 1) + insert_member(m.skip(i + 1), key@, json_view(value)));
        }
        i = i + 1;
    }
    let ghost rest = m.skip(i as int);
    let ghost want = insert_member(m, key@, json_view(value));
    if i < members.len() && crate::text::str_eq(members[i].0.as_str(), key.as_str()) {
        let ghost old_members = members@;
        members.set(i, (key, value));
        proof {
            assert(rest[0].0 == members@[i as int].0@);
            lemma_members_view(members@);
            assert(members_view(members@) =~= want) by {
                assert(want =~= m.take(i as int) + (seq![(members@[i as int].0@, json_view(members@[i as int].1))] + rest.drop_first()));
                assert forall|k: int| 0 <= k < members@.len() implies #[trigger] members_view(members@)[k] == want[k] by {
                    if k != i {
                        assert(members@[k] == old_members[k]);
                    }
                }
            }
        }
    } else {
        let ghost old_members = members@;
        members.insert(i, (key, value));
        proof {
            lemma_members_view(members@);
            if i < old_members.len() {
                assert(rest[0] == m[i as int]);
            } else {
                assert(rest.len() == 0);
            }
            assert(want =~= m.take(i as int) + (seq![(members@[i as int].0@, json_view(members@[i as int].1))] + rest));
            assert forall|k: int| 0 <= k < members@.len() implies #[trigger] members_view(members@)[k] == want[k] by {
                if k < i {
                    assert(members@[k] == old_members[k]);
                } else if k > i {
                    assert(members@[k] == old_members[k - 1]);
                }
            }
            assert(members_view(members@) =~= want);
        }
    }
}

/// A value after `v[key] = value` (as `serde_json`'s indexing assigns): an
/// object gets the member inserted or replaced; `null` becomes an object
/// with that one member.
pub open spec fn set_key(v: JsonView, key: Seq<char>, value: JsonView) -> JsonView {
    match v {
        JsonView::Object(m) => JsonView::Object(insert_member(m, key, value)),
        _ => JsonView::Object(seq![(key, value)]),
    }
}

impl Json {
    /// Sets `self[key] = value`, on an object or on `null`.
    pub fn set_key(&mut self, key: String, value: Json)
        requires
            *old(self) is Object || *old(self) is Null,
        ensures
            json_view(*final(self)) == set_key(json_view(*old(self)), key@, json_view(value)),
    {
        let ghost k = key@;
        let ghost v = json_view(value);
        match self {
            Json::Object(members) => {
                insert_member_into(members, key, value);
            },
            _ => {
                let mut members: Vec<(String, Json)> = Vec::new();
                members.push((key, value));
                proof {
                    lemma_members_view(members@);
                    assert(members_view(members@) =~= seq![(k, v)]);
                }
                *self = Json::Object(members);
            },
        }
    }
}

// ---------------------------------------------------------------------------
// Reading JSON text (serde_json)
// ---------------------------------------------------------------------------

/// The value `serde_json` reads from a JSON text, objects with their keys
/// sorted and a repeated key's last value kept; `None` when the text is not
/// JSON.
pub uninterp spec fn json_parse(text: Seq<char>) -> Option<JsonView>;

#[verifier::external_type_specification]
#[verifier::external_body]
pub struct ExValue(Value);

/// Converts a `serde_json::Value` to a [`Json`], variant for variant: an
/// integer that fits `u64` or `i64` stays an integer, any other number
/// keeps the text `serde_json` writes for it.
#[verifier::external_body]
pub(crate) fn from_serde(v: &Value) -> Json {
    match v {
        Value::Null => Json::Null,
        Value::Bool(b) => Json::Bool(*b),
        Value::Number(n) => Json::Number(match (n.as_u64(), n.as_i64()) {
            (Some(u), _) => Number::PosInt(u),
            (None, Some(i)) => Number::NegInt(i),
            _ => Number::Float(n.to_string()),
        }),
        Value::String(s) => Json::String(s.clone()),
        Value::Array(a) => Json::Array(a.iter().map(from_serde).collect()),
        Value::Object(m) => Json::Object(m.iter().map(|(k, x)| (k.clone(), from_serde(x))).collect()),
    }
}

/// Reads a JSON text with `serde_json::from_str::<serde_json::Value>`.
/// Named, not stated.
#[verifier::external_body]
pub(crate) fn parse_json(text: &str) -> (r: Option<Json>)
    ensures
        match r {
            Some(v) => json_parse(text@) == Some(json_view(v)),
            None => json_parse(text@) is None,
        },
{
    serde_json::from_str::<Value>(text).ok().map(|v| from_serde(&v))
}

/// The value `serde_json::from_slice::<serde_json::Value>` reads from bytes,
/// as [`json_parse`] does from text; `None` when they are not
/// JSON.
pub uninterp spec fn json_parse_bytes(bytes: Seq<u8>) -> Option<JsonView>;

/// Reads bytes as JSON with `serde_json::from_slice`. Named, not
/// stated.
#[verifier::external_body]
pub(crate) fn parse_json_bytes(bytes: &[u8]) -> (r: Option<Json>)
    ensures
        match r {
            Some(v) => json_parse_bytes(bytes@) == Some(json_view(v)),
            None => json_parse_bytes(bytes@) is None,
        },
{
    serde_json::from_slice::<serde_json::Value>(bytes).ok().map(|v| from_serde(&v))
}

/// The value of the first member with key `key`.
pub fn find_member<'a>(members: &'a Vec<(String, Json)>, key: &str) -> (r: Option<&'a Json>)
    ensures
        match r {
            Some(v) => member(members_view(members@), key@) == Some(json_view(*v)),
            None => member(members_view(members@), key@) is None,
        },
{
    proof {
        lemma_members_view(members@);
        assert(members_view(members@).skip(0) =~= members_view(members@));
    }
    let mut i: usize = 0;
    while i < members.len()
        invariant
            i <= members@.len(),
            members_view(members@).len() == members@.len(),
            forall|k: int| 0 <= k < members@.len() ==> #[trigger] members_view(members@)[k] == (
                members@[k].0@,
                json_view(members@[k].1),
            ),
            member(members_view(members@), key@) == member(members_view(members@).skip(i as int), key@),
        decreases members@.len() - i,
    {
        let ghost rest = members_view(members@).skip(i as int);
        if crate::text::str_eq(members[i].0.as_str(), key) {
            assert(rest[0] == members_view(members@)[i as int]);
            return Some(&members[i].1);
        }
        proof {
            assert(rest.drop_first() =~= members_view(members@).skip(i as int + 1));
        }
        i = i + 1;
    }
    proof {
        assert(members_view(members@).skip(i as int).len() == 0);
    }
    None
}

// ---------------------------------------------------------------------------
// Laws of object members
// ---------------------------------------------------------------------------

/// Reading a key right after inserting it gives the inserted value; every
/// other key reads as before.
pub proof fn lemma_insert_member_get<V>(m: Seq<(Seq<char>, V)>, k: Seq<char>, v: V, other: Seq<char>)
    ensures
        member(insert_member(m, k, v), k) == Some(v),
        other != k ==> member(insert_member(m, k, v), other) == member(m, other),
    decreases m.len(),
{
    if m.len() > 0 {
        if m[0].0 == k {
            let r = seq![(k, v)] + m.drop_first();
            assert(r.drop_first() =~= m.drop_first());
            assert(r[0].0 == k);
            assert(insert_member(m, k, v) == r);
            if other != k {
                assert(member(r, other) == member(r.drop_first(), other));
                assert(member(m, other) == member(m.drop_first(), other));
            }
        } else if key_lt(k, m[0].0) {
            assert((seq![(k, v)] + m).drop_first() =~= m);
            assert(other != k ==> member(insert_member(m, k, v), other) == member(m, other));
        } else {
            lemma_insert_member_get(m.drop_first(), k, v, other);
            let r = seq![m[0]] + insert_member(m.drop_first(), k, v);
            assert(r.drop_first() =~= insert_member(m.drop_first(), k, v));
            assert(r[0] == m[0]);
            assert(insert_member(m, k, v) == r);
            assert(other != k ==> member(r, other) == member(m, other));
        }
    } else {
        let r = seq![(k, v)];
        assert(r.drop_first() =~= Seq::<(Seq<char>, V)>::empty());
        assert(insert_member(m, k, v) == r);
        assert(member(r.drop_first(), other) is None);
    }
}

/// Whether object members have their keys strictly increasing: each key
/// once, in order.
pub open spec fn keys_sorted<V>(m: Seq<(Seq<char>, V)>) -> bool {
    forall|i: int, j: int| 0 <= i < j < m.len() ==> key_lt(#[trigger] m[i].0, #[trigger] m[j].0)
}

proof fn lemma_key_lt_trans_strict(a: Seq<char>, b: Seq<char>, c: Seq<char>)
    requires
        key_lt(a, b),
        key_lt(b, c),
    ensures
        key_lt(a, c),
    decreases a.len(),
{
    if a.len() > 0 && b.len() > 0 && c.len() > 0 && a[0] == b[0] && b[0] == c[0] {
        lemma_key_lt_trans_strict(a.drop_first(), b.drop_first(), c.drop_first());
    }
}

proof fn lemma_key_lt_connex(a: Seq<char>, b: Seq<char>)
    ensures
        a == b || key_lt(a, b) || key_lt(b, a),
    decreases a.len(),
{
    if a.len() > 0 && b.len() > 0 && a[0] == b[0] {
        lemma_key_lt_connex(a.drop_first(), b.drop_first());
        if a.drop_first() == b.drop_first() {
            assert(a =~= seq![a[0]] + a.drop_first());
            assert(b =~= seq![b[0]] + b.drop_first());
        }
    } else if a.len() == 0 && b.len() == 0 {
        assert(a =~= b);
    }
}

/// Inserting into members whose keys are sorted keeps them sorted: an
/// object built by insertion never holds a key twice.
pub proof fn lemma_insert_member_sorted<V>(m: Seq<(Seq<char>, V)>, k: Seq<char>, v: V)
    requires
        keys_sorted(m),
    ensures
        keys_sorted(insert_member(m, k, v)),
        forall|i: int| 0 <= i < insert_member(m, k, v).len() ==> (#[trigger] insert_member(m, k, v)[i].0 == k
            || exists|j: int| 0 <= j < m.len() && m[j].0 == insert_member(m, k, v)[i].0),
    decreases m.len(),
{
    let r = insert_member(m, k, v);
    if m.len() == 0 {
    } else if m[0].0 == k {
        assert forall|i: int, j: int| 0 <= i < j < r.len() implies key_lt(#[trigger] r[i].0, #[trigger] r[j].0) by {
            assert(r[j] == m[j]);
            if i > 0 {
                assert(r[i] == m[i]);
            }
        }
        assert forall|i: int| 0 <= i < r.len() implies (#[trigger] r[i].0 == k || exists|j: int| 0 <= j < m.len() && m[j].0 == r[i].0) by {
            if i > 0 {
                assert(r[i] == m[i]);
            }
        }
    } else if key_lt(k, m[0].0) {
        assert forall|i: int, j: int| 0 <= i < j < r.len() implies key_lt(#[trigger] r[i].0, #[trigger] r[j].0) by {
            assert(r[j] == m[j - 1]);
            if i > 0 {
                assert(r[i] == m[i - 1]);
            } else if j > 1 {
                lemma_key_lt_trans_strict(k, m[0].0, m[j - 1].0);
            }
        }
        assert forall|i: int| 0 <= i < r.len() implies (#[trigger] r[i].0 == k || exists|j: int| 0 <= j < m.len() && m[j].0 == r[i].0) by {
            if i > 0 {
                assert(r[i] == m[i - 1]);
            }
        }
    } else {
        let t = m.drop_first();
        assert(keys_sorted(t)) by {
            assert forall|i: int, j: int| 0 <= i < j < t.len() implies key_lt(#[trigger] t[i].0, #[trigger] t[j].0) by {
                assert(t[i] == m[i + 1] && t[j] == m[j + 1]);
            }
        }
        lemma_insert_member_sorted(t, k, v);
        lemma_key_lt_connex(k, m[0].0);
        let rt = insert_member(t, k, v);
        assert(r == seq![m[0]] + rt);
        assert forall|i: int| 0 <= i < r.len() implies (#[trigger] r[i].0 == k || exists|j: int| 0 <= j < m.len() && m[j].0 == r[i].0) by {
            if i == 0 {
                assert(m[0].0 == r[0].0);
            } else {
                assert(r[i] == rt[i - 1]);
                if rt[i - 1].0 != k {
                    let j = choose|j: int| 0 <= j < t.len() && t[j].0 == rt[i - 1].0;
                    assert(m[j + 1] == t[j]);
                }
            }
        }
        assert forall|i: int, j: int| 0 <= i < j < r.len() implies key_lt(#[trigger] r[i].0, #[trigger] r[j].0) by {
            if i == 0 {
                assert(r[j] == rt[j - 1]);
                if rt[j - 1].0 == k {
                } else {
                    let q = choose|q: int| 0 <= q < t.len() && t[q].0 == rt[j - 1].0;
                    assert(t[q] == m[q + 1]);
                }
            } else {
                assert(r[i] == rt[i - 1] && r[j] == rt[j - 1]);
            }
        }
    }
}

} // verus!
