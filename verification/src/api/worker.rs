//! Who may use the worker API: a bearer token from the allowlist.

use vstd::prelude::*;
use crate::text::{chars_of, str_eq, string_of, trim_chars, trimmed};

verus! {

/// The token of an `Authorization` header value: what follows `Bearer `,
/// trimmed; none without that prefix.
pub open spec fn bearer_token(header: Seq<char>) -> Option<Seq<char>> {
    if header.len() >= 7 && header.take(7) == "Bearer "@ {
        Some(trimmed(header.skip(7)))
    } else {
        None
    }
}

/// Whether a worker request may proceed: its header carries a bearer token
/// that is on the allowlist. An empty allowlist admits nobody.
pub open spec fn worker_admitted(header: Option<Seq<char>>, allowed: Seq<Seq<char>>) -> bool {
    match header {
        Some(h) => match bearer_token(h) {
            Some(t) => exists|i: int| 0 <= i < allowed.len() && allowed[i] == t,
            None => false,
        },
        None => false,
    }
}

/// The token of an `Authorization` header value, if it is a bearer one.
pub fn read_bearer(header: &str) -> (r: Option<String>)
    ensures
        match r {
            Some(t) => bearer_token(header@) == Some(t@),
            None => bearer_token(header@) is None,
        },
{
    let c = chars_of(header);
    let prefix = chars_of("Bearer ");
    proof {
        reveal_strlit("Bearer ");
    }
    if c.len() < 7 {
        return None;
    }
    assert(prefix@.len() == 7);
    let mut i: usize = 0;
    while i < 7
        invariant
            i <= 7 <= c@.len(),
            prefix@ == "Bearer "@,
            prefix@.len() == 7,
            c@ == header@,
            forall|k: int| 0 <= k < i ==> c@[k] == prefix@[k],
        decreases 7 - i,
    {
        if c[i] != prefix[i] {
            proof {
                assert(header@.take(7)[i as int] != "Bearer "@[i as int]);
            }
            return None;
        }
        i = i + 1;
    }
    proof {
        assert(header@.take(7) =~= "Bearer "@);
    }
    let mut rest: Vec<char> = Vec::new();
    let mut k: usize = 7;
    while k < c.len()
        invariant
            7 <= k <= c@.len(),
            c@ == header@,
            rest@ == c@.subrange(7, k as int),
        decreases c@.len() - k,
    {
        rest.push(c[k]);
        proof {
            assert(rest@ =~= c@.subrange(7, k + 1));
        }
        k = k + 1;
    }
    proof {
        assert(rest@ =~= header@.skip(7));
    }
    let text = string_of(&rest);
    Some(string_of(&trim_chars(text.as_str())))
}

/// Whether a worker request with this `Authorization` header value may
/// proceed, given the accepted tokens.
pub fn worker_authorized(header: Option<&str>, allowed: &Vec<String>) -> (b: bool)
    ensures
        b == worker_admitted(match header { Some(h) => Some(h@), None => None }, allowed@.map_values(|s: String| s@)),
{
    let ghost av = allowed@.map_values(|s: String| s@);
    let h = match header {
        Some(h) => h,
        None => return false,
    };
    let t = match read_bearer(h) {
        Some(t) => t,
        None => return false,
    };
    let mut i: usize = 0;
    while i < allowed.len()
        invariant
            i <= allowed@.len(),
            av == allowed@.map_values(|s: String| s@),
            header == Some(h),
            bearer_token(h@) == Some(t@),
            forall|k: int| 0 <= k < i ==> av[k] != t@,
        decreases allowed@.len() - i,
    {
        if str_eq(allowed[i].as_str(), t.as_str()) {
            proof {
                assert(av[i as int] == t@);
            }
            return true;
        }
        i = i + 1;
    }
    false
}


/// An empty allowlist admits no worker, whatever it presents.
pub proof fn lemma_empty_allowlist_rejects(header: Option<Seq<char>>)
    ensures
        !worker_admitted(header, Seq::<Seq<char>>::empty()),
{
}

} // verus!
