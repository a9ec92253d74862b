//! The server's settings: where it listens by default, which worker
//! tokens it accepts, and how many runs it executes at once.

use vstd::prelude::*;
use crate::json::{member, json_view, insert_member, insert_member_into, keys_sorted, lemma_insert_member_sorted, lemma_members_view, members_view, Json, JsonView};
use crate::text::{chars_of, parse_unsigned, parse_unsigned_chars, push_str, split_chars, split_on, string_of, trim_chars, trimmed};

verus! {

/// An IPv4 socket address.
#[derive(Debug, Clone, Copy, PartialEq, Eq)]
pub struct ListenAddr {
    pub ip: [u8; 4],
    pub port: u16,
}

/// How `{:?}` writes a string: quoted, with `char::escape_debug` escapes.
pub uninterp spec fn debug_text(s: Seq<char>) -> Seq<char>;

/// A string in `{:?}` form, by `<str as Debug>::fmt`. The text is named,
/// not stated.
#[verifier::external_body]
pub(crate) fn debug_quoted(s: &str) -> (r: String)
    ensures
        r@ == debug_text(s@),
{
    format!("{s:?}")
}

pub open spec fn loopback_4400() -> ListenAddr {
    ListenAddr { ip: [127u8, 0u8, 0u8, 1u8], port: 4400 }
}

/// The default listen address for the raw `PORT` setting: without one (or
/// with a blank one) `127.0.0.1:4400`, loopback only; with one, every
/// interface on that port. A port that is not a `u16` is an error.
pub open spec fn listen_for(port: Option<Seq<char>>) -> Result<ListenAddr, Seq<char>> {
    match port {
        None => Ok(loopback_4400()),
        Some(raw) => {
            let p = trimmed(raw);
            if p.len() == 0 {
                Ok(loopback_4400())
            } else {
                match parse_unsigned(p, 65535) {
                    Some(n) => Ok(ListenAddr { ip: [0u8, 0u8, 0u8, 0u8], port: n as u16 }),
                    None => Err("invalid PORT value "@ + debug_text(p) + " (expected 0-65535)"@),
                }
            }
        },
    }
}

/// The address to listen on when none is configured, from the raw value of
/// the `PORT` setting.
pub fn default_listen(port: Option<&str>) -> (r: Result<ListenAddr, String>)
    ensures
        match port {
            None => r == Ok::<_, String>(loopback_4400()),
            Some(p) => match r {
                Ok(a) => listen_for(Some(p@)) == Ok::<_, Seq<char>>(a),
                Err(e) => listen_for(Some(p@)) == Err::<ListenAddr, _>(e@),
            },
        },
{
    match port {
        None => Ok(ListenAddr { ip: [127, 0, 0, 1], port: 4400 }),
        Some(raw) => {
            let p = trim_chars(raw);
            if p.len() == 0 {
                return Ok(ListenAddr { ip: [127, 0, 0, 1], port: 4400 });
            }
            match parse_unsigned_chars(&p, 65535) {
                Some(n) => Ok(ListenAddr { ip: [0, 0, 0, 0], port: n as u16 }),
                None => {
                    let text = crate::expr::parse::collect(p.as_slice(), 0, p.len());
                    proof {
                        assert(p@.subrange(0, p@.len() as int) =~= p@);
                    }
                    let mut message = "invalid PORT value ".to_owned();
                    let quoted = debug_quoted(text.as_str());
                    push_str(&mut message, quoted.as_str());
                    push_str(&mut message, " (expected 0-65535)");
                    Err(message)
                },
            }
        },
    }
}

/// Runs the server executes at once when `ORCH_LOCAL_CAPACITY` gives no
/// number.
pub const DEFAULT_LOCAL_CAPACITY: u32 = 8;

/// The local capacity from the raw `ORCH_LOCAL_CAPACITY` value: its
/// trimmed text read as a `u32`, else the default.
pub open spec fn capacity_for(raw: Option<Seq<char>>) -> u32 {
    match raw {
        Some(v) => match parse_unsigned(trimmed(v), u32::MAX as int) {
            Some(n) => n as u32,
            None => DEFAULT_LOCAL_CAPACITY,
        },
        None => DEFAULT_LOCAL_CAPACITY,
    }
}

/// The local capacity from the raw `ORCH_LOCAL_CAPACITY` value.
pub fn local_capacity(raw: Option<&str>) -> (n: u32)
    ensures
        n == capacity_for(match raw { Some(v) => Some(v@), None => None }),
{
    match raw {
        None => DEFAULT_LOCAL_CAPACITY,
        Some(v) => match parse_unsigned_chars(&trim_chars(v), u32::MAX as u64) {
            Some(n) => n as u32,
            None => DEFAULT_LOCAL_CAPACITY,
        },
    }
}

/// Tokens as object members with no value: the tokens sorted, each once.
pub open spec fn token_members(tokens: Seq<Seq<char>>) -> Seq<(Seq<char>, JsonView)>
    decreases tokens.len(),
{
    if tokens.len() == 0 {
        seq![]
    } else {
        insert_member(token_members(tokens.drop_last()), tokens.last(), JsonView::Null)
    }
}

/// The non-blank, trimmed pieces of a comma-separated list.
pub open spec fn list_entries(pieces: Seq<Seq<char>>) -> Seq<Seq<char>>
    decreases pieces.len(),
{
    if pieces.len() == 0 {
        seq![]
    } else if trimmed(pieces.last()).len() == 0 {
        list_entries(pieces.drop_last())
    } else {
        list_entries(pieces.drop_last()).push(trimmed(pieces.last()))
    }
}

/// The worker tokens the server accepts: those given on the command line
/// and the entries of the `ORCH_WORKER_TOKENS` list, sorted, each once.
pub open spec fn accepted_tokens(cli: Seq<Seq<char>>, env: Option<Seq<char>>) -> Seq<Seq<char>> {
    let all = match env {
        Some(e) => cli + list_entries(split_on(e, ',')),
        None => cli,
    };
    token_members(all).map_values(|m: (Seq<char>, JsonView)| m.0)
}

/// Strings as sequences.
pub open spec fn texts(v: Seq<String>) -> Seq<Seq<char>> {
    v.map_values(|x: String| x@)
}

/// The worker tokens the server accepts, from the command line and the raw
/// `ORCH_WORKER_TOKENS` value.
pub fn worker_tokens(cli: Vec<String>, env: Option<&str>) -> (r: Vec<String>)
    ensures
        texts(r@) == accepted_tokens(texts(cli@), match env { Some(e) => Some(e@), None => None }),
{
    let mut all: Vec<String> = cli;
    let ghost start = texts(all@);
    if let Some(e) = env {
        let pieces = split_chars(&chars_of(e), ',');
        let ghost ps = split_on(e@, ',');
        let mut i: usize = 0;
        proof {
            assert(ps.take(0) =~= Seq::<Seq<char>>::empty());
            assert(texts(all@) =~= start + list_entries(ps.take(0)));
        }
        while i < pieces.len()
            invariant
                i <= pieces@.len(),
                ps == split_on(e@, ','),
                pieces@.len() == ps.len(),
                forall|k: int| 0 <= k < pieces@.len() ==> #[trigger] pieces@[k]@ == ps[k],
                texts(all@) == start + list_entries(ps.take(i as int)),
            decreases pieces@.len() - i,
        {
            proof {
                assert(ps.take(i + 1).drop_last() =~= ps.take(i as int));
                assert(ps.take(i + 1).last() == ps[i as int]);
                assert(pieces@[i as int]@ == ps[i as int]);
            }
            let t = trim_chars(string_of(&pieces[i]).as_str());
            if t.len() > 0 {
                let ghost before = texts(all@);
                all.push(string_of(&t));
                proof {
                    assert(texts(all@) =~= before.push(t@));
                }
            }
            i = i + 1;
        }
        proof {
            assert(ps.take(pieces@.len() as int) =~= ps);
        }
    }
    let ghost av = texts(all@);
    let mut m: Vec<(String, Json)> = Vec::new();
    let mut j: usize = 0;
    proof {
        lemma_members_view(m@);
        assert(members_view(m@) =~= seq![]);
        assert(av.take(0) =~= Seq::<Seq<char>>::empty());
    }
    while j < all.len()
        invariant
            j <= all@.len(),
            av == texts(all@),
            members_view(m@) == token_members(av.take(j as int)),
        decreases all@.len() - j,
    {
        proof {
            assert(av.take(j + 1).drop_last() =~= av.take(j as int));
            assert(av.take(j + 1).last() == all@[j as int]@);
        }
        insert_member_into(&mut m, all[j].clone(), Json::Null);
        j = j + 1;
    }
    proof {
        assert(av.take(all@.len() as int) =~= av);
        lemma_members_view(m@);
    }
    let ghost mv = members_view(m@);
    let mut r: Vec<String> = Vec::new();
    let mut k: usize = 0;
    while k < m.len()
        invariant
            k <= m@.len(),
            mv == members_view(m@),
            mv.len() == m@.len(),
            forall|q: int| 0 <= q < m@.len() ==> #[trigger] mv[q] == (m@[q].0@, json_view(m@[q].1)),
            texts(r@) == mv.map_values(|x: (Seq<char>, JsonView)| x.0).take(k as int),
        decreases m@.len() - k,
    {
        let ghost before = texts(r@);
        r.push(m[k].0.clone());
        proof {
            assert(texts(r@) =~= before.push(m@[k as int].0@));
            assert(mv.map_values(|x: (Seq<char>, JsonView)| x.0).take(k + 1)
                =~= mv.map_values(|x: (Seq<char>, JsonView)| x.0).take(k as int).push(mv[k as int].0));
        }
        k = k + 1;
    }
    proof {
        assert(mv.map_values(|x: (Seq<char>, JsonView)| x.0).take(m@.len() as int) =~= mv.map_values(|x: (Seq<char>, JsonView)| x.0));
    }
    r
}

proof fn lemma_token_members_sorted(tokens: Seq<Seq<char>>)
    ensures
        keys_sorted(token_members(tokens)),
    decreases tokens.len(),
{
    if tokens.len() > 0 {
        lemma_token_members_sorted(tokens.drop_last());
        lemma_insert_member_sorted(token_members(tokens.drop_last()), tokens.last(), JsonView::Null);
    }
}

/// The accepted worker tokens are strictly increasing: sorted, and none
/// listed twice.
pub proof fn lemma_tokens_sorted_unique(cli: Seq<Seq<char>>, env: Option<Seq<char>>)
    ensures
        forall|i: int, j: int| 0 <= i < j < accepted_tokens(cli, env).len() ==>
            crate::json::key_lt(#[trigger] accepted_tokens(cli, env)[i], #[trigger] accepted_tokens(cli, env)[j]),
{
    let all = match env {
        Some(e) => cli + list_entries(split_on(e, ',')),
        None => cli,
    };
    lemma_token_members_sorted(all);
    let tm = token_members(all);
    assert forall|i: int, j: int| 0 <= i < j < accepted_tokens(cli, env).len() implies
        crate::json::key_lt(#[trigger] accepted_tokens(cli, env)[i], #[trigger] accepted_tokens(cli, env)[j]) by {
        assert(accepted_tokens(cli, env)[i] == tm[i].0);
        assert(accepted_tokens(cli, env)[j] == tm[j].0);
    }
}


proof fn lemma_member_found<V>(m: Seq<(Seq<char>, V)>, k: Seq<char>)
    requires
        member(m, k) is Some,
    ensures
        exists|j: int| 0 <= j < m.len() && m[j].0 == k,
    decreases m.len(),
{
    if m[0].0 != k {
        lemma_member_found(m.drop_first(), k);
        let j = choose|j: int| 0 <= j < m.drop_first().len() && m.drop_first()[j].0 == k;
        assert(m[j + 1] == m.drop_first()[j]);
    }
}

proof fn lemma_token_members_has(tokens: Seq<Seq<char>>, i: int)
    requires
        0 <= i < tokens.len(),
    ensures
        member(token_members(tokens), tokens[i]) is Some,
    decreases tokens.len(),
{
    let rest = tokens.drop_last();
    crate::json::lemma_insert_member_get(token_members(rest), tokens.last(), JsonView::Null, tokens[i]);
    if i < tokens.len() - 1 {
        lemma_token_members_has(rest, i);
        assert(rest[i] == tokens[i]);
    }
}

/// Every token given on the command line, and every non-blank entry of the
/// `ORCH_WORKER_TOKENS` list (trimmed), is accepted.
pub proof fn lemma_tokens_all_accepted(cli: Seq<Seq<char>>, env: Option<Seq<char>>, t: Seq<char>)
    requires
        cli.contains(t) || (env matches Some(e) && list_entries(split_on(e, ',')).contains(t)),
    ensures
        accepted_tokens(cli, env).contains(t),
{
    let all = match env {
        Some(e) => cli + list_entries(split_on(e, ',')),
        None => cli,
    };
    let i: int = if cli.contains(t) {
        choose|i: int| 0 <= i < cli.len() && cli[i] == t
    } else {
        let e = env->0;
        let l = list_entries(split_on(e, ','));
        let j = choose|j: int| 0 <= j < l.len() && l[j] == t;
        cli.len() + j
    };
    assert(all[i] == t);
    lemma_token_members_has(all, i);
    let tm = token_members(all);
    lemma_member_found(tm, t);
    let j = choose|j: int| 0 <= j < tm.len() && tm[j].0 == t;
    assert(accepted_tokens(cli, env)[j] == t);
}

} // verus!
