//! The `http.request` task plugin's logic: its config grammar (method, url,
//! headers, body, success codes), how a request is put together from it,
//! and how a response becomes the task's result or error.

use vstd::prelude::*;
use vstd::utf8::encode_utf8;
use crate::plugins::{LogLevel, PluginError};
use crate::json::{json_parse_bytes, parse_json_bytes, Number, NumberView, json_parse, parse_json, get_key, insert_member, insert_member_into, json_text, json_view, lemma_items_view, lemma_members_view, items_view, members_view, Json, JsonView};
use crate::text::{lossy_text, utf8_lossy, decimal, decimal_u64, str_eq, chars_of, parse_unsigned, parse_unsigned_chars, push_char, push_str, trim_chars, trimmed};

verus! {

/// One entry of a `success_codes` list: a class (`2xx` is class 2) or an
/// exact status code.
#[derive(Debug, Clone, Copy, PartialEq, Eq, Structural)]
pub enum CodeSpec {
    Class(u16),
    Exact(u16),
}

/// Whether a status code matches an entry.
pub open spec fn code_matches(c: CodeSpec, status: u16) -> bool {
    match c {
        CodeSpec::Class(n) => status / 100 == n,
        CodeSpec::Exact(e) => status == e,
    }
}

impl CodeSpec {
    /// Whether a status code matches this entry.
    pub fn matches(self, status: u16) -> (b: bool)
        ensures
            b == code_matches(self, status),
    {
        match self {
            CodeSpec::Class(n) => status / 100 == n,
            CodeSpec::Exact(c) => status == c,
        }
    }
}

/// A string with ASCII capitals made small.
pub open spec fn ascii_lower(s: Seq<char>) -> Seq<char> {
    s.map_values(|c: char| if 'A' <= c && c <= 'Z' { ((c as u32) + 32) as char } else { c })
}

/// A string with ASCII small letters made capital.
pub open spec fn ascii_upper(s: Seq<char>) -> Seq<char> {
    s.map_values(|c: char| if 'a' <= c && c <= 'z' { ((c as u32) - 32) as char } else { c })
}

fn lower_char(c: char) -> (r: char)
    ensures
        r == (if 'A' <= c && c <= 'Z' { ((c as u32) + 32) as char } else { c }),
{
    if 'A' <= c && c <= 'Z' {
        let v: u32 = (c as u32) + 32;
        proof {
            assert(0x61 <= v <= 0x7a);
        }
        v as u8 as char
    } else {
        c
    }
}

fn upper_char(c: char) -> (r: char)
    ensures
        r == (if 'a' <= c && c <= 'z' { ((c as u32) - 32) as char } else { c }),
{
    if 'a' <= c && c <= 'z' {
        let v: u32 = (c as u32) - 32;
        proof {
            assert(0x41 <= v <= 0x5a);
        }
        v as u8 as char
    } else {
        c
    }
}

/// A character sequence with ASCII capitals made small.
pub fn to_ascii_lower(s: &Vec<char>) -> (r: Vec<char>)
    ensures
        r@ == ascii_lower(s@),
{
    let mut r: Vec<char> = Vec::new();
    let mut i: usize = 0;
    while i < s.len()
        invariant
            i <= s@.len(),
            r@ == ascii_lower(s@.take(i as int)),
        decreases s@.len() - i,
    {
        r.push(lower_char(s[i]));
        proof {
            assert(ascii_lower(s@.take(i + 1)) =~= ascii_lower(s@.take(i as int)).push(ascii_lower(s@)[i as int]));
        }
        i = i + 1;
    }
    proof {
        assert(s@.take(s@.len() as int) =~= s@);
    }
    r
}

/// A string with ASCII small letters made capital.
pub fn to_ascii_upper(s: &str) -> (r: String)
    ensures
        r@ == ascii_upper(s@),
{
    let c = chars_of(s);
    let mut r = String::new();
    let mut i: usize = 0;
    while i < c.len()
        invariant
            i <= c@.len(),
            c@ == s@,
            r@ == ascii_upper(c@.take(i as int)),
        decreases c@.len() - i,
    {
        push_char(&mut r, upper_char(c[i]));
        proof {
            assert(ascii_upper(c@.take(i + 1)) =~= ascii_upper(c@.take(i as int)).push(ascii_upper(c@)[i as int]));
        }
        i = i + 1;
    }
    proof {
        assert(c@.take(c@.len() as int) =~= c@);
    }
    r
}

/// The pieces of a string between commas (one piece when there is none).
pub open spec fn comma_pieces(s: Seq<char>) -> Seq<Seq<char>>
    decreases s.len(),
{
    if s.len() == 0 {
        seq![seq![]]
    } else {
        let before = comma_pieces(s.drop_last());
        if s.last() == ',' {
            before.push(seq![])
        } else {
            before.update(before.len() - 1, before.last().push(s.last()))
        }
    }
}

proof fn lemma_comma_pieces_nonempty(s: Seq<char>)
    ensures
        comma_pieces(s).len() >= 1,
    decreases s.len(),
{
    if s.len() > 0 {
        lemma_comma_pieces_nonempty(s.drop_last());
    }
}

/// What one (trimmed, lower-cased) entry of a `success_codes` list means:
/// `Nxx` with `N` in 1..=5 is a class, a number in 100..=599 a code.
pub open spec fn code_entry(entry: Seq<char>) -> Option<CodeSpec> {
    if entry.len() >= 2 && entry[entry.len() - 2] == 'x' && entry[entry.len() - 1] == 'x' {
        match parse_unsigned(entry.take(entry.len() - 2), 65535) {
            Some(n) => if 1 <= n <= 5 { Some(CodeSpec::Class(n as u16)) } else { None },
            None => None,
        }
    } else {
        match parse_unsigned(entry, 65535) {
            Some(c) => if 100 <= c <= 599 { Some(CodeSpec::Exact(c as u16)) } else { None },
            None => None,
        }
    }
}

/// The message for an entry that is neither a code nor a class.
pub open spec fn bad_code_entry(entry: Seq<char>) -> Seq<char> {
    "success_codes: invalid entry \""@ + entry
        + "\" (expected a status code like 404 or a class like 2xx)"@
}

/// The entries of the comma pieces, or the message for the first bad one.
pub open spec fn code_entries(parts: Seq<Seq<char>>) -> Result<Seq<CodeSpec>, Seq<char>>
    decreases parts.len(),
{
    if parts.len() == 0 {
        Ok(seq![])
    } else {
        match code_entries(parts.drop_last()) {
            Err(e) => Err(e),
            Ok(done) => match code_entry(ascii_lower(trimmed(parts.last()))) {
                Some(c) => Ok(done.push(c)),
                None => Err(bad_code_entry(trimmed(parts.last()))),
            },
        }
    }
}

/// What a `success_codes` list means: blank is `2xx`; else a comma list of
/// codes and classes, blanks around entries ignored, case ignored.
pub open spec fn success_codes(spec: Seq<char>) -> Result<Seq<CodeSpec>, Seq<char>> {
    let t = trimmed(spec);
    if t.len() == 0 {
        Ok(seq![CodeSpec::Class(2)])
    } else {
        code_entries(comma_pieces(t))
    }
}

/// The comma pieces of a character sequence.
fn split_commas(s: &Vec<char>) -> (r: Vec<Vec<char>>)
    ensures
        r@.len() == comma_pieces(s@).len(),
        forall|k: int| 0 <= k < r@.len() ==> #[trigger] r@[k]@ == comma_pieces(s@)[k],
{
    let mut r: Vec<Vec<char>> = Vec::new();
    let mut cur: Vec<char> = Vec::new();
    let mut i: usize = 0;
    proof {
        assert(s@.take(0) =~= Seq::<char>::empty());
    }
    while i < s.len()
        invariant
            i <= s@.len(),
            r@.len() + 1 == comma_pieces(s@.take(i as int)).len(),
            forall|k: int| 0 <= k < r@.len() ==> #[trigger] r@[k]@ == comma_pieces(s@.take(i as int))[k],
            cur@ == comma_pieces(s@.take(i as int)).last(),
        decreases s@.len() - i,
    {
        proof {
            assert(s@.take(i + 1).drop_last() =~= s@.take(i as int));
            assert(s@.take(i + 1).last() == s@[i as int]);
            lemma_comma_pieces_nonempty(s@.take(i as int));
        }
        if s[i] == ',' {
            let done = cur;
            r.push(done);
            cur = Vec::new();
            proof {
                assert(cur@ =~= Seq::<char>::empty());
            }
        } else {
            cur.push(s[i]);
        }
        i = i + 1;
    }
    r.push(cur);
    proof {
        assert(s@.take(s@.len() as int) =~= s@);
        lemma_comma_pieces_nonempty(s@);
    }
    r
}

/// Trims a character sequence of whitespace at both ends.
fn trim_vec(s: &Vec<char>) -> (r: Vec<char>)
    ensures
        r@ == trimmed(s@),
{
    let mut t = String::new();
    let mut i: usize = 0;
    while i < s.len()
        invariant
            i <= s@.len(),
            t@ == s@.take(i as int),
        decreases s@.len() - i,
    {
        push_char(&mut t, s[i]);
        proof {
            assert(s@.take(i + 1) =~= s@.take(i as int).push(s@[i as int]));
        }
        i = i + 1;
    }
    proof {
        assert(s@.take(s@.len() as int) =~= s@);
    }
    trim_chars(t.as_str())
}

fn code_entry_exec(entry: &Vec<char>) -> (r: Option<CodeSpec>)
    ensures
        r == code_entry(entry@),
{
    let n = entry.len();
    if n >= 2 && entry[n - 2] == 'x' && entry[n - 1] == 'x' {
        let mut head: Vec<char> = Vec::new();
        let mut i: usize = 0;
        while i < n - 2
            invariant
                n == entry@.len(),
                n >= 2,
                i <= n - 2,
                head@ == entry@.take(i as int),
            decreases n - 2 - i,
        {
            head.push(entry[i]);
            proof {
                assert(entry@.take(i + 1) =~= entry@.take(i as int).push(entry@[i as int]));
            }
            i = i + 1;
        }
        match parse_unsigned_chars(&head, 65535) {
            Some(v) => if 1 <= v && v <= 5 { Some(CodeSpec::Class(v as u16)) } else { None },
            None => None,
        }
    } else {
        match parse_unsigned_chars(entry, 65535) {
            Some(c) => if 100 <= c && c <= 599 { Some(CodeSpec::Exact(c as u16)) } else { None },
            None => None,
        }
    }
}

/// Parses a `success_codes` list.
pub fn parse_success_codes(spec: &str) -> (r: Result<Vec<CodeSpec>, String>)
    ensures
        match success_codes(spec@) {
            Ok(codes) => r matches Ok(v) && v@ == codes,
            Err(e) => r matches Err(m) && m@ == e,
        },
{
    let t = trim_chars(spec);
    if t.len() == 0 {
        let mut v: Vec<CodeSpec> = Vec::new();
        v.push(CodeSpec::Class(2));
        proof {
            assert(v@ =~= seq![CodeSpec::Class(2)]);
        }
        return Ok(v);
    }
    let parts = split_commas(&t);
    let ghost ps = comma_pieces(t@);
    let mut out: Vec<CodeSpec> = Vec::new();
    let mut i: usize = 0;
    proof {
        assert(ps.take(0) =~= Seq::<Seq<char>>::empty());
    }
    while i < parts.len()
        invariant
            i <= parts@.len(),
            t@ == trimmed(spec@),
            t@.len() > 0,
            ps == comma_pieces(t@),
            parts@.len() == ps.len(),
            forall|k: int| 0 <= k < parts@.len() ==> #[trigger] parts@[k]@ == ps[k],
            code_entries(ps.take(i as int)) == Ok::<Seq<CodeSpec>, Seq<char>>(out@),
        decreases parts@.len() - i,
    {
        proof {
            assert(ps.take(i + 1).drop_last() =~= ps.take(i as int));
            assert(ps.take(i + 1).last() == ps[i as int]);
        }
        let part = trim_vec(&parts[i]);
        let entry = to_ascii_lower(&part);
        match code_entry_exec(&entry) {
            Some(c) => {
                out.push(c);
            },
            None => {
                let mut m = String::new();
                push_str(&mut m, "success_codes: invalid entry \"");
                let mut k: usize = 0;
                let ghost base = m@;
                while k < part.len()
                    invariant
                        k <= part@.len(),
                        m@ == base + part@.take(k as int),
                    decreases part@.len() - k,
                {
                    push_char(&mut m, part[k]);
                    proof {
                        assert(part@.take(k + 1) =~= part@.take(k as int).push(part@[k as int]));
                    }
                    k = k + 1;
                }
                proof {
                    assert(part@.take(part@.len() as int) =~= part@);
                }
                push_str(&mut m, "\" (expected a status code like 404 or a class like 2xx)");
                proof {
                    assert(code_entries(ps.take(i + 1)) == Err::<Seq<CodeSpec>, Seq<char>>(m@));
                    lemma_code_entries_error(ps, i + 1, m@);
                }
                return Err(m);
            },
        }
        i = i + 1;
    }
    proof {
        assert(ps.take(parts@.len() as int) =~= ps);
    }
    Ok(out)
}

proof fn lemma_code_entries_error(parts: Seq<Seq<char>>, k: int, e: Seq<char>)
    requires
        0 <= k <= parts.len(),
        code_entries(parts.take(k)) == Err::<Seq<CodeSpec>, Seq<char>>(e),
    ensures
        code_entries(parts) == Err::<Seq<CodeSpec>, Seq<char>>(e),
    decreases parts.len() - k,
{
    if k < parts.len() {
        assert(parts.take(k + 1).drop_last() =~= parts.take(k));
        lemma_code_entries_error(parts, k + 1, e);
    } else {
        assert(parts.take(k) =~= parts);
    }
}

// ---------------------------------------------------------------------------
// Config fields
// ---------------------------------------------------------------------------

/// The text of a config value: a string as it is, anything else as compact
/// JSON.
pub open spec fn value_text(v: JsonView) -> Seq<char> {
    match v {
        JsonView::String(s) => s,
        _ => json_text(v),
    }
}

/// The text of a config value.
pub fn value_to_string(v: &Json) -> (s: String)
    ensures
        s@ == value_text(json_view(*v)),
{
    match v {
        Json::String(s) => s.clone(),
        _ => v.to_text(),
    }
}

/// A `[{key, value}]` list from an optional config field: absent or `null`
/// is empty; each item must be an object with a non-empty string `key`; a
/// missing `value` is `null`.
pub open spec fn kv_list(field: Seq<char>, v: Option<JsonView>) -> Result<Seq<(Seq<char>, JsonView)>, Seq<char>> {
    match v {
        None => Ok(seq![]),
        Some(JsonView::Null) => Ok(seq![]),
        Some(JsonView::Array(items)) => kv_items(field, items, 0),
        Some(_) => Err(field + " must be an array of {key, value} objects"@),
    }
}

/// The pairs of the items from position `i` on.
pub open spec fn kv_items(field: Seq<char>, items: Seq<JsonView>, i: int) -> Result<Seq<(Seq<char>, JsonView)>, Seq<char>>
    decreases items.len() - i,
{
    if i < 0 || i >= items.len() {
        Ok(seq![])
    } else {
        match items[i] {
            JsonView::Object(m) => match get_key(items[i], "key"@) {
                Some(JsonView::String(k)) => if k.len() > 0 {
                    match kv_items(field, items, i + 1) {
                        Ok(rest) => Ok(seq![(k, match get_key(items[i], "value"@) { Some(x) => x, None => JsonView::Null })] + rest),
                        Err(e) => Err(e),
                    }
                } else {
                    Err(field + "["@ + decimal(i as nat) + "].key must be a non-empty string"@)
                },
                _ => Err(field + "["@ + decimal(i as nat) + "].key must be a non-empty string"@),
            },
            _ => Err(field + "["@ + decimal(i as nat) + "] must be a {key, value} object"@),
        }
    }
}

fn indexed_message(field: &str, i: usize, rest: &str) -> (s: String)
    ensures
        s@ == field@ + "["@ + decimal(i as nat) + rest@,
{
    let mut s = field.to_string();
    push_str(&mut s, "[");
    push_str(&mut s, decimal_u64(i as u64).as_str());
    push_str(&mut s, rest);
    s
}

/// Pairs as sequences.
pub open spec fn pairs_view(v: Seq<(String, Json)>) -> Seq<(Seq<char>, JsonView)> {
    v.map_values(|p: (String, Json)| (p.0@, json_view(p.1)))
}

/// Reads a `[{key, value}]` list from an optional config field.
pub fn kv_pairs(field: &str, v: Option<&Json>) -> (r: Result<Vec<(String, Json)>, String>)
    ensures
        match kv_list(field@, match v { Some(x) => Some(json_view(*x)), None => None }) {
            Ok(p) => r matches Ok(x) && pairs_view(x@) == p,
            Err(e) => r matches Err(x) && x@ == e,
        },
{
    let items = match v {
        None => {
            let out: Vec<(String, Json)> = Vec::new();
            assert(pairs_view(out@) =~= seq![]);
            return Ok(out);
        },
        Some(Json::Null) => {
            let out: Vec<(String, Json)> = Vec::new();
            assert(pairs_view(out@) =~= seq![]);
            return Ok(out);
        },
        Some(Json::Array(a)) => a,
        Some(_) => {
            let mut s = field.to_string();
            push_str(&mut s, " must be an array of {key, value} objects");
            return Err(s);
        },
    };
    proof {
        lemma_items_view(items@);
    }
    let ghost iv = items_view(items@);
    let mut out: Vec<(String, Json)> = Vec::new();
    let mut i: usize = 0;
    while i < items.len()
        invariant
            i <= items@.len(),
            iv == items_view(items@),
            match v { Some(x) => json_view(*x) == JsonView::Array(iv), None => false },
            iv.len() == items@.len(),
            forall|k: int| 0 <= k < items@.len() ==> #[trigger] iv[k] == json_view(items@[k]),
            kv_items(field@, iv, 0) == match kv_items(field@, iv, i as int) {
                Ok(rest) => Ok(pairs_view(out@) + rest),
                Err(e) => Err(e),
            },
        decreases items@.len() - i,
    {
        let item = &items[i];
        assert(iv[i as int] == json_view(*item));
        match item {
            Json::Object(_) => {
                let key = match item.get_key("key") {
                    Some(Json::String(k)) => {
                        if chars_of(k.as_str()).len() == 0 {
                            None
                        } else {
                            Some(k.clone())
                        }
                    },
                    _ => None,
                };
                match key {
                    Some(k) => {
                        let value = match item.get_key("value") {
                            Some(x) => x.copy(),
                            None => Json::Null,
                        };
                        let ghost before = pairs_view(out@);
                        out.push((k, value));
                        proof {
                            assert(pairs_view(out@) =~= before.push((k@, json_view(value))));
                            assert(pairs_view(out@) + kv_items(field@, iv, i + 1)->Ok_0 =~= before + (seq![(k@, json_view(value))] + kv_items(field@, iv, i + 1)->Ok_0));
                        }
                    },
                    None => {
                        return Err(indexed_message(field, i, "].key must be a non-empty string"));
                    },
                }
            },
            _ => {
                return Err(indexed_message(field, i, "] must be a {key, value} object"));
            },
        }
        i = i + 1;
    }
    proof {
        assert(pairs_view(out@) + seq![] =~= pairs_view(out@));
    }
    Ok(out)
}

// ---------------------------------------------------------------------------
// Header names and values (http)
// ---------------------------------------------------------------------------

/// The bytes a header name may hold: the token characters of HTTP, letters
/// of either case.
pub open spec fn token_byte(b: u8) -> bool {
    b == 33 || (35 <= b <= 39) || b == 42 || b == 43 || b == 45 || b == 46 || (48 <= b <= 57)
        || (65 <= b <= 90) || (94 <= b <= 122) || b == 124 || b == 126
}

/// Whether `http::HeaderName::from_bytes` accepts the name's UTF-8 bytes:
/// between 1 and 65535 of them, each a token byte.
pub open spec fn header_name_ok(name: Seq<char>) -> bool {
    let b = encode_utf8(name);
    &&& 1 <= b.len() <= 65535
    &&& forall|i: int| 0 <= i < b.len() ==> #[trigger] token_byte(b[i])
}

/// `http::HeaderName::from_bytes` (re-exported by `reqwest`) on the name's
/// UTF-8 bytes: `None` when it accepts them, else its error's text, which
/// the source writes as `invalid HTTP header name`. The source accepts a
/// name of 1 to 65535 bytes each of which its table of token characters
/// maps to a non-zero byte.
#[verifier::external_body]
fn header_name_error(name: &str) -> (r: Option<String>)
    ensures
        r is None <==> header_name_ok(name@),
        r matches Some(e) ==> e@ == "invalid HTTP header name"@,
{
    reqwest::header::HeaderName::from_bytes(name.as_bytes()).err().map(|e| e.to_string())
}

/// Whether `http::HeaderValue::from_str` accepts a value: every byte is a
/// tab or at least a space and not DEL, which for a UTF-8 string is a
/// condition on its characters.
pub open spec fn header_value_ok(v: Seq<char>) -> bool {
    forall|i: int| 0 <= i < v.len() ==> (#[trigger] v[i] == '\t' || (v[i] as u32 >= 32 && v[i] != '\x7f'))
}

/// `http::HeaderValue::from_str`: `None` when it accepts the value, else
/// its error's text, `failed to parse header value`.
#[verifier::external_body]
fn header_value_error(value: &str) -> (r: Option<String>)
    ensures
        r is None <==> header_value_ok(value@),
        r matches Some(e) ==> e@ == "failed to parse header value"@,
{
    reqwest::header::HeaderValue::from_str(value).err().map(|e| e.to_string())
}

// ---------------------------------------------------------------------------
// Validating a config
// ---------------------------------------------------------------------------

/// The methods a request may use.
pub open spec fn allowed_method(m: Seq<char>) -> bool {
    m == "GET"@ || m == "POST"@ || m == "PUT"@ || m == "PATCH"@ || m == "DELETE"@
}

fn is_allowed_method(m: &str) -> (b: bool)
    ensures
        b == allowed_method(m@),
{
    str_eq(m, "GET") || str_eq(m, "POST") || str_eq(m, "PUT") || str_eq(m, "PATCH") || str_eq(m, "DELETE")
}

/// Whether a string holds `{{`.
pub open spec fn has_braces(s: Seq<char>) -> bool {
    exists|i: int| 0 <= i < s.len() - 1 && #[trigger] s[i] == '{' && s[i + 1] == '{'
}

fn contains_braces(s: &str) -> (b: bool)
    ensures
        b == has_braces(s@),
{
    let c = chars_of(s);
    let mut i: usize = 0;
    while i < c.len() && i + 1 < c.len()
        invariant
            c@ == s@,
            i <= c@.len(),
            forall|k: int| 0 <= k < i && k < c@.len() - 1 ==> !(#[trigger] c@[k] == '{' && c@[k + 1] == '{'),
        decreases c@.len() - i,
    {
        if c[i] == '{' && c[i + 1] == '{' {
            return true;
        }
        i = i + 1;
    }
    false
}

/// The problem with the `url` field.
pub open spec fn url_problems(config: JsonView) -> Seq<Seq<char>> {
    match get_key(config, "url"@) {
        Some(JsonView::String(s)) => if trimmed(s).len() > 0 { seq![] } else { seq!["url is required"@] },
        _ => seq!["url is required"@],
    }
}

/// The problem with the `method` field.
pub open spec fn method_problems(config: JsonView) -> Seq<Seq<char>> {
    let msg = "method must be one of GET, POST, PUT, PATCH, DELETE"@;
    match get_key(config, "method"@) {
        None => seq![],
        Some(JsonView::Null) => seq![],
        Some(JsonView::String(s)) => if allowed_method(ascii_upper(s)) { seq![] } else { seq![msg] },
        Some(_) => seq![msg],
    }
}

/// The problem with the `success_codes` field.
pub open spec fn codes_problems(config: JsonView) -> Seq<Seq<char>> {
    match get_key(config, "success_codes"@) {
        None => seq![],
        Some(JsonView::Null) => seq![],
        Some(JsonView::String(s)) => match success_codes(s) {
            Ok(_) => seq![],
            Err(e) => seq![e],
        },
        Some(_) => seq!["success_codes must be a string"@],
    }
}

/// The header names that are not templates and not valid names.
pub open spec fn bad_header_names(pairs: Seq<(Seq<char>, JsonView)>) -> Seq<Seq<char>>
    decreases pairs.len(),
{
    if pairs.len() == 0 {
        seq![]
    } else {
        let before = bad_header_names(pairs.drop_last());
        let k = pairs.last().0;
        if !has_braces(k) && !header_name_ok(k) {
            before.push("headers: \""@ + k + "\" is not a valid header name"@)
        } else {
            before
        }
    }
}

/// The problems with the `headers` field.
pub open spec fn header_problems(config: JsonView) -> Seq<Seq<char>> {
    match kv_list("headers"@, get_key(config, "headers"@)) {
        Ok(pairs) => bad_header_names(pairs),
        Err(e) => seq![e],
    }
}

/// The keys that occur more than once, each once, in key order.
pub open spec fn duplicates(pairs: Seq<(Seq<char>, JsonView)>) -> Seq<(Seq<char>, JsonView)>
    decreases pairs.len(),
{
    if pairs.len() == 0 {
        seq![]
    } else {
        let before = duplicates(pairs.drop_last());
        let k = pairs.last().0;
        if exists|j: int| 0 <= j < pairs.len() - 1 && #[trigger] pairs[j].0 == k {
            insert_member(before, k, JsonView::Null)
        } else {
            before
        }
    }
}

/// A problem for each key given more than once.
pub open spec fn dup_messages(pairs: Seq<(Seq<char>, JsonView)>) -> Seq<Seq<char>> {
    duplicates(pairs).map_values(|d: (Seq<char>, JsonView)| "body: duplicate key \""@ + d.0 + "\" (last value wins)"@)
}

/// The problems with the `body` field.
pub open spec fn body_problems(config: JsonView) -> Seq<Seq<char>> {
    match kv_list("body"@, get_key(config, "body"@)) {
        Ok(pairs) => dup_messages(pairs),
        Err(e) => seq![e],
    }
}

/// Everything wrong with an `http.request` config, in the order the
/// checks run.
pub open spec fn config_problems(config: JsonView) -> Seq<Seq<char>> {
    match config {
        JsonView::Object(_) => url_problems(config) + method_problems(config) + codes_problems(config)
            + header_problems(config) + body_problems(config),
        _ => seq!["config must be an object"@],
    }
}

/// Strings as sequences.
pub open spec fn texts(v: Seq<String>) -> Seq<Seq<char>> {
    v.map_values(|x: String| x@)
}

fn push_text(errs: &mut Vec<String>, m: String)
    ensures
        texts(final(errs)@) == texts(old(errs)@).push(m@),
{
    errs.push(m);
    proof {
        assert(texts(errs@) =~= texts(old(errs)@).push(m@));
    }
}

/// Appends a problem for each header name that is neither a template nor
/// a valid name.
fn header_name_problems(pairs: &Vec<(String, Json)>, errs: &mut Vec<String>)
    ensures
        texts(final(errs)@) == texts(old(errs)@) + bad_header_names(pairs_view(pairs@)),
{
    let ghost base = texts(errs@);
    proof {
        assert(pairs_view(pairs@).take(0) =~= Seq::<(Seq<char>, JsonView)>::empty());
        assert(texts(errs@) =~= base + seq![]);
    }

    let mut i: usize = 0;
    while i < pairs.len()
        invariant
            i <= pairs@.len(),
            texts(errs@) == base + bad_header_names(pairs_view(pairs@).take(i as int)),
        decreases pairs@.len() - i,
    {
        let k = &pairs[i].0;
        proof {
            assert(pairs_view(pairs@).take(i + 1).drop_last() =~= pairs_view(pairs@).take(i as int));
            assert(pairs_view(pairs@).take(i + 1).last().0 == k@);
        }
        if !contains_braces(k.as_str()) && header_name_error(k.as_str()).is_some() {
            let mut m = "headers: \"".to_string();
            push_str(&mut m, k.as_str());
            push_str(&mut m, "\" is not a valid header name");
            push_text(errs, m);
            proof {
                assert(texts(errs@) =~= base + bad_header_names(pairs_view(pairs@).take(i + 1)));
            }
        }
        i = i + 1;
    }
    proof {
        assert(pairs_view(pairs@).take(pairs@.len() as int) =~= pairs_view(pairs@));
    }

}

/// Appends a problem for each body key given more than once, in key order.
fn duplicate_problems(pairs: &Vec<(String, Json)>, errs: &mut Vec<String>)
    ensures
        texts(final(errs)@) == texts(old(errs)@) + dup_messages(pairs_view(pairs@)),
{
    let ghost base = texts(errs@);
    let ghost pv = pairs_view(pairs@);
    let mut dups: Vec<(String, Json)> = Vec::new();
    let mut i: usize = 0;
    proof {
        lemma_members_view(dups@);
        assert(members_view(dups@) =~= duplicates(pv.take(0)));
    }
    while i < pairs.len()
        invariant
            i <= pairs@.len(),
            pv == pairs_view(pairs@),
            members_view(dups@) == duplicates(pv.take(i as int)),
        decreases pairs@.len() - i,
    {
        let k = &pairs[i].0;
        let mut seen = false;
        let mut j: usize = 0;
        while j < i
            invariant
                j <= i < pairs@.len(),
                pv == pairs_view(pairs@),
                seen <==> exists|x: int| 0 <= x < j && #[trigger] pv[x].0 == k@,
            decreases i - j,
        {
            if str_eq(pairs[j].0.as_str(), k.as_str()) {
                seen = true;
            }
            proof {
                assert(pv[j as int].0 == pairs@[j as int].0@);
            }
            j = j + 1;
        }
        proof {
            let t = pv.take(i + 1);
            assert(t.drop_last() =~= pv.take(i as int));
            assert(t.last().0 == k@);
            assert((exists|x: int| 0 <= x < t.len() - 1 && #[trigger] t[x].0 == k@)
                <==> (exists|x: int| 0 <= x < i && #[trigger] pv[x].0 == k@)) by {
                if exists|x: int| 0 <= x < i && #[trigger] pv[x].0 == k@ {
                    let x = choose|x: int| 0 <= x < i && #[trigger] pv[x].0 == k@;
                    assert(t[x] == pv[x]);
                }
                if exists|x: int| 0 <= x < t.len() - 1 && #[trigger] t[x].0 == k@ {
                    let x = choose|x: int| 0 <= x < t.len() - 1 && #[trigger] t[x].0 == k@;
                    assert(t[x] == pv[x]);
                }
            }
        }
        if seen {
            insert_member_into(&mut dups, k.clone(), Json::Null);
        }
        i = i + 1;
    }
    proof {
        assert(pv.take(pairs@.len() as int) =~= pv);
        lemma_members_view(dups@);
    }
    let ghost dv = members_view(dups@);
    let ghost msgs = dup_messages(pv);
    proof {
        assert(msgs.take(0) =~= Seq::<Seq<char>>::empty());
        assert(texts(errs@) =~= base + msgs.take(0));
    }
    let mut n: usize = 0;
    while n < dups.len()
        invariant
            n <= dups@.len(),
            dv == members_view(dups@),
            dv.len() == dups@.len(),
            msgs.len() == dv.len(),
            forall|q: int| 0 <= q < dv.len() ==> #[trigger] msgs[q] == "body: duplicate key \""@ + dv[q].0 + "\" (last value wins)"@,
            forall|q: int| 0 <= q < dups@.len() ==> #[trigger] dv[q] == (dups@[q].0@, json_view(dups@[q].1)),
            texts(errs@) == base + msgs.take(n as int),
        decreases dups@.len() - n,
    {
        let mut m = "body: duplicate key \"".to_string();
        push_str(&mut m, dups[n].0.as_str());
        push_str(&mut m, "\" (last value wins)");
        push_text(errs, m);
        proof {
            assert(msgs[n as int] == m@);
            assert(msgs.take(n + 1) =~= msgs.take(n as int).push(m@));
        }
        n = n + 1;
    }
    proof {
        assert(msgs.take(dups@.len() as int) =~= msgs);
    }
}

/// Checks an `http.request` config and lists its problems.
pub fn validate(config: &Json) -> (r: Vec<String>)
    ensures
        texts(r@) == config_problems(json_view(*config)),
{
    let mut errs: Vec<String> = Vec::new();
    if !matches!(config, Json::Object(_)) {
        push_text(&mut errs, "config must be an object".to_string());
        proof {
            assert(texts(errs@) =~= seq!["config must be an object"@]);
        }
        return errs;
    }
    let ghost c = json_view(*config);
    proof {
        assert(texts(errs@) =~= seq![]);
    }
    // url
    let url_ok = match config.get_key("url") {
        Some(Json::String(s)) => trim_chars(s.as_str()).len() > 0,
        _ => false,
    };
    if !url_ok {
        push_text(&mut errs, "url is required".to_string());
    }
    proof {
        assert(texts(errs@) =~= url_problems(c));
    }
    let ghost after_url = texts(errs@);
    // method
    match config.get_key("method") {
        None => {},
        Some(Json::Null) => {},
        Some(m) => {
            let ok = match m {
                Json::String(s) => is_allowed_method(to_ascii_upper(s.as_str()).as_str()),
                _ => false,
            };
            if !ok {
                push_text(&mut errs, "method must be one of GET, POST, PUT, PATCH, DELETE".to_string());
            }
        },
    }
    proof {
        assert(texts(errs@) =~= after_url + method_problems(c));
    }
    let ghost after_method = texts(errs@);
    // success codes
    match config.get_key("success_codes") {
        None => {},
        Some(Json::Null) => {},
        Some(Json::String(s)) => {
            if let Err(e) = parse_success_codes(s.as_str()) {
                push_text(&mut errs, e);
            }
        },
        Some(_) => {
            push_text(&mut errs, "success_codes must be a string".to_string());
        },
    }
    proof {
        assert(texts(errs@) =~= after_method + codes_problems(c));
    }
    let ghost after_codes = texts(errs@);
    // headers
    match kv_pairs("headers", config.get_key("headers")) {
        Ok(pairs) => {
            header_name_problems(&pairs, &mut errs);
        },
        Err(e) => {
            push_text(&mut errs, e);
        },
    }
    proof {
        assert(texts(errs@) =~= after_codes + header_problems(c));
    }
    let ghost after_headers = texts(errs@);
    // body
    match kv_pairs("body", config.get_key("body")) {
        Ok(pairs) => {
            duplicate_problems(&pairs, &mut errs);
        },
        Err(e) => {
            push_text(&mut errs, e);
        },
    }
    proof {
        assert(texts(errs@) =~= after_headers + body_problems(c));
    }
    errs
}

// ---------------------------------------------------------------------------
// Putting a request together
// ---------------------------------------------------------------------------

/// What a request sends as its body.
#[derive(Debug)]
pub enum RequestBody {
    /// No body.
    Empty,
    /// A text body, with the `Content-Type` to set when the headers do not
    /// set one.
    Text { text: String, content_type: Option<String> },
    /// The body params, sent as one JSON object.
    Params(Vec<(String, Json)>),
}

/// A request, ready to send: method, URL, the codes that count as success,
/// header names and values, and the body.
#[derive(Debug)]
pub struct RequestPlan {
    pub method: String,
    pub url: String,
    pub success_codes: Vec<CodeSpec>,
    pub headers: Vec<(String, String)>,
    pub body: RequestBody,
}

proof fn lemma_header_lines_keys(pairs: Seq<(Seq<char>, JsonView)>)
    ensures
        header_lines(pairs) matches Ok(h) ==> h.len() == pairs.len()
            && forall|i: int| 0 <= i < pairs.len() ==> (#[trigger] h[i]).0 == pairs[i].0,
    decreases pairs.len(),
{
    if pairs.len() > 0 {
        lemma_header_lines_keys(pairs.drop_last());
        if let Ok(h) = header_lines(pairs) {
            let done = header_lines(pairs.drop_last())->Ok_0;
            assert forall|i: int| 0 <= i < pairs.len() implies (#[trigger] h[i]).0 == pairs[i].0 by {
                if i < pairs.len() - 1 {
                    assert(h[i] == done[i]);
                    assert(pairs.drop_last()[i] == pairs[i]);
                }
            }
        }
    }
}

/// A non-empty string `raw_body` is sent as it is. Unless the request's own
/// headers set a `Content-Type` (in any case), it is typed: as JSON when the
/// string reads as a JSON object or array, as plain text otherwise; when
/// they do set one, none is added.
pub proof fn lemma_raw_body_content_type(config: JsonView, cancelled: bool, s: Seq<char>)
    requires
        request_of(config, cancelled) is Ok,
        get_key(config, "raw_body"@) == Some(JsonView::String(s)),
        s.len() > 0,
    ensures
        ({
            let plan = request_of(config, cancelled)->Ok_0;
            &&& (forall|i: int| 0 <= i < plan.headers.len() ==> ascii_lower(#[trigger] plan.headers[i].0) != "content-type"@)
                ==> plan.body == BodyView::Text(s, Some(
                    if json_parse(s) matches Some(JsonView::Object(_)) || json_parse(s) matches Some(JsonView::Array(_)) {
                        "application/json"@
                    } else {
                        "text/plain"@
                    },
                ))
            &&& (exists|i: int| 0 <= i < plan.headers.len() && ascii_lower(#[trigger] plan.headers[i].0) == "content-type"@)
                ==> plan.body == BodyView::Text(s, None)
        }),
{
    let hs = kv_list("headers"@, get_key(config, "headers"@))->Ok_0;
    lemma_header_lines_keys(hs);
    let plan = request_of(config, cancelled)->Ok_0;
    let h = header_lines(hs)->Ok_0;
    assert(plan.headers == h);
    if sets_content_type(hs) {
        let i = choose|i: int| 0 <= i < hs.len() && ascii_lower(#[trigger] hs[i].0) == "content-type"@;
        assert(ascii_lower(plan.headers[i].0) == "content-type"@);
    } else {
        assert forall|i: int| 0 <= i < plan.headers.len() implies ascii_lower(#[trigger] plan.headers[i].0) != "content-type"@ by {
            assert(plan.headers[i].0 == hs[i].0);
        }
    }
}

/// A body as sequences.
pub enum BodyView {
    Empty,
    Text(Seq<char>, Option<Seq<char>>),
    Params(Seq<(Seq<char>, JsonView)>),
}

/// The method of a request.
pub open spec fn method_of(config: JsonView) -> Result<Seq<char>, Seq<char>> {
    match get_key(config, "method"@) {
        None => Ok("GET"@),
        Some(JsonView::Null) => Ok("GET"@),
        Some(JsonView::String(s)) => if allowed_method(ascii_upper(s)) {
            Ok(ascii_upper(s))
        } else {
            Err("method must be one of GET, POST, PUT, PATCH, DELETE (got \""@ + ascii_upper(s) + "\")"@)
        },
        Some(_) => Err("method must be a string"@),
    }
}

/// The URL of a request: a non-blank string, or the text of any other
/// non-null value.
pub open spec fn url_of(config: JsonView) -> Result<Seq<char>, Seq<char>> {
    match get_key(config, "url"@) {
        Some(JsonView::String(s)) => if trimmed(s).len() > 0 { Ok(s) } else { Err("url is required"@) },
        Some(JsonView::Null) => Err("url is required"@),
        Some(v) => Ok(value_text(v)),
        None => Err("url is required"@),
    }
}

/// The success codes of a request: `2xx` by default.
pub open spec fn codes_of(config: JsonView) -> Result<Seq<CodeSpec>, Seq<char>> {
    match get_key(config, "success_codes"@) {
        None => Ok(seq![CodeSpec::Class(2)]),
        Some(JsonView::Null) => Ok(seq![CodeSpec::Class(2)]),
        Some(v) => success_codes(value_text(v)),
    }
}

/// The headers as names and value texts, or the message for the first
/// name or value `http` refuses.
pub open spec fn header_lines(pairs: Seq<(Seq<char>, JsonView)>) -> Result<Seq<(Seq<char>, Seq<char>)>, Seq<char>>
    decreases pairs.len(),
{
    if pairs.len() == 0 {
        Ok(seq![])
    } else {
        match header_lines(pairs.drop_last()) {
            Err(e) => Err(e),
            Ok(done) => {
                let k = pairs.last().0;
                let v = value_text(pairs.last().1);
                if !header_name_ok(k) {
                    Err("invalid header name \""@ + k + "\": invalid HTTP header name"@)
                } else if !header_value_ok(v) {
                    Err("invalid value for header \""@ + k + "\": failed to parse header value"@)
                } else {
                    Ok(done.push((k, v)))
                }
            },
        }
    }
}

/// Whether the headers set a `Content-Type`, in any case.
pub open spec fn sets_content_type(pairs: Seq<(Seq<char>, JsonView)>) -> bool {
    exists|i: int| 0 <= i < pairs.len() && ascii_lower(#[trigger] pairs[i].0) == "content-type"@
}

/// The body params as object members, a repeated key's last value kept.
pub open spec fn params_object(pairs: Seq<(Seq<char>, JsonView)>) -> Seq<(Seq<char>, JsonView)>
    decreases pairs.len(),
{
    if pairs.len() == 0 {
        seq![]
    } else {
        insert_member(params_object(pairs.drop_last()), pairs.last().0, pairs.last().1)
    }
}

/// The body of a request: a non-empty `raw_body` string as it is (typed as
/// JSON when it reads as an object or array, else as plain text); another
/// non-null `raw_body` as JSON text; else the body params, if any.
pub open spec fn body_of(config: JsonView, params: Seq<(Seq<char>, JsonView)>, has_ct: bool) -> BodyView {
    match get_key(config, "raw_body"@) {
        Some(JsonView::String(s)) => if s.len() > 0 {
            BodyView::Text(s, if has_ct { None } else {
                Some(match json_parse(s) {
                    Some(JsonView::Object(_)) => "application/json"@,
                    Some(JsonView::Array(_)) => "application/json"@,
                    _ => "text/plain"@,
                })
            })
        } else if params.len() > 0 {
            BodyView::Params(params_object(params))
        } else {
            BodyView::Empty
        },
        Some(JsonView::Null) => if params.len() > 0 { BodyView::Params(params_object(params)) } else { BodyView::Empty },
        Some(v) => BodyView::Text(json_text(v), if has_ct { None } else { Some("application/json"@) }),
        None => if params.len() > 0 { BodyView::Params(params_object(params)) } else { BodyView::Empty },
    }
}

/// A request as sequences.
pub struct PlanView {
    pub method: Seq<char>,
    pub url: Seq<char>,
    pub codes: Seq<CodeSpec>,
    pub headers: Seq<(Seq<char>, Seq<char>)>,
    pub body: BodyView,
}

/// The request an `http.request` config makes, or the message of the first
/// problem, checked in order: config shape, method, URL, success codes,
/// header and body lists, then whether the task was canceled (`canceled`),
/// then header names and values.
pub open spec fn request_of(config: JsonView, cancelled: bool) -> Result<PlanView, Seq<char>> {
    if !(config is Object) {
        Err("config must be an object"@)
    } else {
        match method_of(config) {
            Err(e) => Err(e),
            Ok(method) => match url_of(config) {
                Err(e) => Err(e),
                Ok(url) => match codes_of(config) {
                    Err(e) => Err(e),
                    Ok(codes) => match kv_list("headers"@, get_key(config, "headers"@)) {
                        Err(e) => Err(e),
                        Ok(hs) => match kv_list("body"@, get_key(config, "body"@)) {
                            Err(e) => Err(e),
                            Ok(ps) => if cancelled {
                                Err(cancel_message())
                            } else {
                                match header_lines(hs) {
                                    Err(e) => Err(e),
                                    Ok(headers) => Ok(PlanView {
                                        method,
                                        url,
                                        codes,
                                        headers,
                                        body: body_of(config, ps, sets_content_type(hs)),
                                    }),
                                }
                            },
                        },
                    },
                },
            },
        }
    }
}

/// A body as sequences.
pub open spec fn body_view(b: RequestBody) -> BodyView {
    match b {
        RequestBody::Empty => BodyView::Empty,
        RequestBody::Text { text, content_type } => BodyView::Text(text@, match content_type { Some(c) => Some(c@), None => None }),
        RequestBody::Params(m) => BodyView::Params(members_view(m@)),
    }
}

/// Header lines as sequences.
pub open spec fn lines_view(v: Seq<(String, String)>) -> Seq<(Seq<char>, Seq<char>)> {
    v.map_values(|p: (String, String)| (p.0@, p.1@))
}

/// A request as sequences.
pub open spec fn plan_view(p: RequestPlan) -> PlanView {
    PlanView { method: p.method@, url: p.url@, codes: p.success_codes@, headers: lines_view(p.headers@), body: body_view(p.body) }
}

fn fatal(m: String) -> (e: PluginError)
    ensures
        e.message@ == m@,
        !e.retryable,
{
    PluginError::fatal(m)
}

fn method_exec(config: &Json) -> (r: Result<String, String>)
    ensures
        match method_of(json_view(*config)) {
            Ok(m) => r matches Ok(x) && x@ == m,
            Err(e) => r matches Err(x) && x@ == e,
        },
{
    match config.get_key("method") {
        None => Ok("GET".to_string()),
        Some(Json::Null) => Ok("GET".to_string()),
        Some(Json::String(s)) => {
            let u = to_ascii_upper(s.as_str());
            if is_allowed_method(u.as_str()) {
                Ok(u)
            } else {
                let mut m = "method must be one of GET, POST, PUT, PATCH, DELETE (got \"".to_string();
                push_str(&mut m, u.as_str());
                push_str(&mut m, "\")");
                Err(m)
            }
        },
        Some(_) => Err("method must be a string".to_string()),
    }
}

fn url_exec(config: &Json) -> (r: Result<String, String>)
    ensures
        match url_of(json_view(*config)) {
            Ok(m) => r matches Ok(x) && x@ == m,
            Err(e) => r matches Err(x) && x@ == e,
        },
{
    match config.get_key("url") {
        Some(Json::String(s)) => if trim_chars(s.as_str()).len() > 0 { Ok(s.clone()) } else { Err("url is required".to_string()) },
        Some(Json::Null) => Err("url is required".to_string()),
        Some(v) => Ok(value_to_string(v)),
        None => Err("url is required".to_string()),
    }
}

fn codes_exec(config: &Json) -> (r: Result<Vec<CodeSpec>, String>)
    ensures
        match codes_of(json_view(*config)) {
            Ok(c) => r matches Ok(x) && x@ == c,
            Err(e) => r matches Err(x) && x@ == e,
        },
{
    match config.get_key("success_codes") {
        None => {
            let mut v: Vec<CodeSpec> = Vec::new();
            v.push(CodeSpec::Class(2));
            assert(v@ =~= seq![CodeSpec::Class(2)]);
            Ok(v)
        },
        Some(Json::Null) => {
            let mut v: Vec<CodeSpec> = Vec::new();
            v.push(CodeSpec::Class(2));
            assert(v@ =~= seq![CodeSpec::Class(2)]);
            Ok(v)
        },
        Some(v) => parse_success_codes(value_to_string(v).as_str()),
    }
}

fn headers_exec(pairs: &Vec<(String, Json)>) -> (r: Result<Vec<(String, String)>, String>)
    ensures
        match header_lines(pairs_view(pairs@)) {
            Ok(h) => r matches Ok(x) && lines_view(x@) == h,
            Err(e) => r matches Err(x) && x@ == e,
        },
{
    let ghost pv = pairs_view(pairs@);
    let mut out: Vec<(String, String)> = Vec::new();
    let mut i: usize = 0;
    proof {
        assert(lines_view(out@) =~= seq![]);
        assert(pv.take(0) =~= Seq::<(Seq<char>, JsonView)>::empty());
    }
    while i < pairs.len()
        invariant
            i <= pairs@.len(),
            pv == pairs_view(pairs@),
            header_lines(pv.take(i as int)) == Ok::<_, Seq<char>>(lines_view(out@)),
        decreases pairs@.len() - i,
    {
        proof {
            assert(pv.take(i + 1).drop_last() =~= pv.take(i as int));
            assert(pv.take(i + 1).last() == (pairs@[i as int].0@, json_view(pairs@[i as int].1)));
        }
        let k = &pairs[i].0;
        let v = value_to_string(&pairs[i].1);
        if header_name_error(k.as_str()).is_some() {
            let mut m = "invalid header name \"".to_string();
            push_str(&mut m, k.as_str());
            push_str(&mut m, "\": invalid HTTP header name");
            proof {
                lemma_header_lines_error(pv, i + 1, m@);
            }
            return Err(m);
        }
        if header_value_error(v.as_str()).is_some() {
            let mut m = "invalid value for header \"".to_string();
            push_str(&mut m, k.as_str());
            push_str(&mut m, "\": failed to parse header value");
            proof {
                lemma_header_lines_error(pv, i + 1, m@);
            }
            return Err(m);
        }
        let ghost before = lines_view(out@);
        out.push((k.clone(), v));
        proof {
            assert(lines_view(out@) =~= before.push((k@, v@)));
        }
        i = i + 1;
    }
    proof {
        assert(pv.take(pairs@.len() as int) =~= pv);
    }
    Ok(out)
}

proof fn lemma_header_lines_error(pairs: Seq<(Seq<char>, JsonView)>, k: int, e: Seq<char>)
    requires
        0 <= k <= pairs.len(),
        header_lines(pairs.take(k)) == Err::<Seq<(Seq<char>, Seq<char>)>, Seq<char>>(e),
    ensures
        header_lines(pairs) == Err::<Seq<(Seq<char>, Seq<char>)>, Seq<char>>(e),
    decreases pairs.len() - k,
{
    if k < pairs.len() {
        assert(pairs.take(k + 1).drop_last() =~= pairs.take(k));
        lemma_header_lines_error(pairs, k + 1, e);
    } else {
        assert(pairs.take(k) =~= pairs);
    }
}

fn has_content_type(pairs: &Vec<(String, Json)>) -> (b: bool)
    ensures
        b == sets_content_type(pairs_view(pairs@)),
{
    let ghost pv = pairs_view(pairs@);
    let mut i: usize = 0;
    while i < pairs.len()
        invariant
            i <= pairs@.len(),
            pv == pairs_view(pairs@),
            forall|k: int| 0 <= k < i ==> ascii_lower(#[trigger] pv[k].0) != "content-type"@,
        decreases pairs@.len() - i,
    {
        let lower = to_ascii_lower(&chars_of(pairs[i].0.as_str()));
        let mut t = String::new();
        let mut j: usize = 0;
        while j < lower.len()
            invariant
                j <= lower@.len(),
                t@ == lower@.take(j as int),
            decreases lower@.len() - j,
        {
            push_char(&mut t, lower[j]);
            proof {
                assert(lower@.take(j + 1) =~= lower@.take(j as int).push(lower@[j as int]));
            }
            j = j + 1;
        }
        proof {
            assert(lower@.take(lower@.len() as int) =~= lower@);
            assert(pv[i as int].0 == pairs@[i as int].0@);
        }
        if str_eq(t.as_str(), "content-type") {
            return true;
        }
        i = i + 1;
    }
    false
}

fn params_exec(pairs: Vec<(String, Json)>) -> (r: Vec<(String, Json)>)
    ensures
        members_view(r@) == params_object(pairs_view(pairs@)),
{
    let ghost pv = pairs_view(pairs@);
    let mut out: Vec<(String, Json)> = Vec::new();
    let mut i: usize = 0;
    proof {
        lemma_members_view(out@);
        assert(members_view(out@) =~= seq![]);
        assert(pv.take(0) =~= Seq::<(Seq<char>, JsonView)>::empty());
    }
    while i < pairs.len()
        invariant
            i <= pairs@.len(),
            pv == pairs_view(pairs@),
            members_view(out@) == params_object(pv.take(i as int)),
        decreases pairs@.len() - i,
    {
        proof {
            assert(pv.take(i + 1).drop_last() =~= pv.take(i as int));
            assert(pv.take(i + 1).last() == (pairs@[i as int].0@, json_view(pairs@[i as int].1)));
        }
        insert_member_into(&mut out, pairs[i].0.clone(), pairs[i].1.copy());
        i = i + 1;
    }
    proof {
        assert(pv.take(pairs@.len() as int) =~= pv);
    }
    out
}

/// The message of a request given up because its task was canceled.
pub open spec fn cancel_message() -> Seq<char> {
    "canceled"@
}

/// Puts together the request an `http.request` config makes; `cancelled`
/// says whether the task was canceled before the request went out, in
/// which case nothing is sent.
pub fn request_plan(config: &Json, cancelled: bool) -> (r: Result<RequestPlan, PluginError>)
    ensures
        match request_of(json_view(*config), cancelled) {
            Ok(p) => r matches Ok(x) && plan_view(x) == p,
            Err(e) => r matches Err(x) && x.message@ == e && !x.retryable,
        },
{
    if !matches!(config, Json::Object(_)) {
        return Err(fatal("config must be an object".to_string()));
    }
    let method = match method_exec(config) {
        Ok(m) => m,
        Err(e) => return Err(fatal(e)),
    };
    let url = match url_exec(config) {
        Ok(u) => u,
        Err(e) => return Err(fatal(e)),
    };
    let success_codes = match codes_exec(config) {
        Ok(c) => c,
        Err(e) => return Err(fatal(e)),
    };
    let header_pairs = match kv_pairs("headers", config.get_key("headers")) {
        Ok(p) => p,
        Err(e) => return Err(fatal(e)),
    };
    let body_params = match kv_pairs("body", config.get_key("body")) {
        Ok(p) => p,
        Err(e) => return Err(fatal(e)),
    };
    if cancelled {
        return Err(fatal("canceled".to_string()));
    }
    let headers = match headers_exec(&header_pairs) {
        Ok(h) => h,
        Err(e) => return Err(fatal(e)),
    };
    let has_ct = has_content_type(&header_pairs);
    let ghost params_v = pairs_view(body_params@);
    let no_params = body_params.len() == 0;
    let from_params = if no_params { RequestBody::Empty } else { RequestBody::Params(params_exec(body_params)) };
    let body = match config.get_key("raw_body") {
        Some(Json::String(s)) => {
            if chars_of(s.as_str()).len() > 0 {
                let content_type = if has_ct {
                    None
                } else {
                    Some(match parse_json(s.as_str()) {
                        Some(Json::Object(_)) => "application/json".to_string(),
                        Some(Json::Array(_)) => "application/json".to_string(),
                        _ => "text/plain".to_string(),
                    })
                };
                RequestBody::Text { text: s.clone(), content_type }
            } else {
                from_params
            }
        },
        Some(Json::Null) => from_params,
        Some(v) => RequestBody::Text {
            text: v.to_text(),
            content_type: if has_ct { None } else { Some("application/json".to_string()) },
        },
        None => from_params,
    };
    let plan = RequestPlan { method, url, success_codes, headers, body };
    proof {
        assert(body_view(plan.body) == body_of(json_view(*config), params_v, has_ct));
    }
    Ok(plan)
}

// ---------------------------------------------------------------------------
// Reading a response
// ---------------------------------------------------------------------------

/// Whether a status code counts as success.
pub open spec fn is_success(codes: Seq<CodeSpec>, status: u16) -> bool {
    exists|i: int| 0 <= i < codes.len() && code_matches(#[trigger] codes[i], status)
}

/// Header names and joined values as object members.
pub open spec fn header_members(headers: Seq<(Seq<char>, Seq<char>)>) -> Seq<(Seq<char>, JsonView)>
    decreases headers.len(),
{
    if headers.len() == 0 {
        seq![]
    } else {
        insert_member(header_members(headers.drop_last()), headers.last().0, JsonView::String(headers.last().1))
    }
}

/// What a response body reads as: JSON when it parses, else its text.
pub open spec fn body_value(body: Seq<u8>) -> JsonView {
    match json_parse_bytes(body) {
        Some(v) => v,
        None => JsonView::String(utf8_lossy(body)),
    }
}

/// The task result of a response whose status counts as success:
/// `{"body": ..., "headers": {...}, "status": ...}`; else the error, its
/// message naming the status with the first 200 characters of the body,
/// retryable for a 5xx.
pub open spec fn response_of(status: u16, headers: Seq<(Seq<char>, Seq<char>)>, body: Seq<u8>, codes: Seq<CodeSpec>) -> Result<JsonView, (Seq<char>, bool)> {
    if is_success(codes, status) {
        Ok(JsonView::Object(insert_member(insert_member(insert_member(seq![],
            "status"@, JsonView::Number(NumberView::Int(status as int))),
            "headers"@, JsonView::Object(header_members(headers))),
            "body"@, body_value(body))))
    } else {
        let text = utf8_lossy(body);
        Err(("unexpected status "@ + decimal(status as nat) + ": "@ + text.take(if text.len() > 200 { 200 } else { text.len() as int }), status >= 500))
    }
}

/// The level of the line logged for a response: ok for success, a warning
/// for a retryable failure, an error otherwise.
pub open spec fn response_level(status: u16, codes: Seq<CodeSpec>) -> LogLevel {
    if is_success(codes, status) {
        LogLevel::Success
    } else if status >= 500 {
        LogLevel::Warn
    } else {
        LogLevel::Error
    }
}

/// The outcome of a response as sequences.
pub open spec fn response_view(r: Result<Json, PluginError>) -> Result<JsonView, (Seq<char>, bool)> {
    match r {
        Ok(v) => Ok(json_view(v)),
        Err(e) => Err((e.message@, e.retryable)),
    }
}

/// Makes a response (status, header names with joined values, body bytes)
/// into the task's result or error, with the level of the line to log.
pub fn response_outcome(status: u16, headers: &Vec<(String, String)>, body: &Vec<u8>, codes: &Vec<CodeSpec>) -> (r: (Result<Json, PluginError>, LogLevel))
    ensures
        response_view(r.0) == response_of(status, lines_view(headers@), body@, codes@),
        r.1 == response_level(status, codes@),
{
    let mut ok = false;
    let mut i: usize = 0;
    while i < codes.len()
        invariant
            i <= codes@.len(),
            ok <==> exists|k: int| 0 <= k < i && code_matches(#[trigger] codes@[k], status),
        decreases codes@.len() - i,
    {
        if codes[i].matches(status) {
            ok = true;
        }
        i = i + 1;
    }
    let level = if ok { LogLevel::Success } else if status >= 500 { LogLevel::Warn } else { LogLevel::Error };
    if ok {
        let mut hm: Vec<(String, Json)> = Vec::new();
        let ghost hv = lines_view(headers@);
        let mut j: usize = 0;
        proof {
            lemma_members_view(hm@);
            assert(members_view(hm@) =~= seq![]);
            assert(hv.take(0) =~= Seq::<(Seq<char>, Seq<char>)>::empty());
        }
        while j < headers.len()
            invariant
                j <= headers@.len(),
                hv == lines_view(headers@),
                members_view(hm@) == header_members(hv.take(j as int)),
            decreases headers@.len() - j,
        {
            proof {
                assert(hv.take(j + 1).drop_last() =~= hv.take(j as int));
                assert(hv.take(j + 1).last() == (headers@[j as int].0@, headers@[j as int].1@));
            }
            insert_member_into(&mut hm, headers[j].0.clone(), Json::String(headers[j].1.clone()));
            j = j + 1;
        }
        proof {
            assert(hv.take(headers@.len() as int) =~= hv);
            lemma_members_view(hm@);
        }
        let body_json = match parse_json_bytes(body.as_slice()) {
            Some(v) => v,
            None => Json::String(lossy_text(body.as_slice())),
        };
        let mut m: Vec<(String, Json)> = Vec::new();
        proof {
            lemma_members_view(m@);
            assert(members_view(m@) =~= seq![]);
        }
        insert_member_into(&mut m, "status".to_string(), Json::Number(Number::PosInt(status as u64)));
        insert_member_into(&mut m, "headers".to_string(), Json::Object(hm));
        insert_member_into(&mut m, "body".to_string(), body_json);
        (Ok(Json::Object(m)), level)
    } else {
        let text = chars_of(lossy_text(body.as_slice()).as_str());
        let mut msg = "unexpected status ".to_string();
        push_str(&mut msg, decimal_u64(status as u64).as_str());
        push_str(&mut msg, ": ");
        let n: usize = if text.len() > 200 { 200 } else { text.len() };
        let ghost base = msg@;
        let mut k: usize = 0;
        while k < n
            invariant
                k <= n <= text@.len(),
                msg@ == base + text@.take(k as int),
            decreases n - k,
        {
            push_char(&mut msg, text[k]);
            proof {
                assert(text@.take(k + 1) =~= text@.take(k as int).push(text@[k as int]));
            }
            k = k + 1;
        }
        (Err(PluginError { message: msg, retryable: status >= 500 }), level)
    }
}

} // verus!
