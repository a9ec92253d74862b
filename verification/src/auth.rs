//! Password hashes, session tokens and session cookies.

use vstd::prelude::*;
use argon2::password_hash::{PasswordHash, PasswordHasher, PasswordVerifier, Salt, SaltString};
use argon2::Argon2;
use crate::json::{hex_char, hex_digit};
use crate::text::{chars_of, decimal_i64, push_str, signed_decimal, split_chars, split_on, string_of, trimmed, trim_chars};

verus! {

/// The `Set-Cookie` value of a session.
pub open spec fn cookie_text(token: Seq<char>, secure: bool, max_age: int) -> Seq<char> {
    "orch_session="@ + token + "; HttpOnly; SameSite=Lax; Path=/; Max-Age="@ + signed_decimal(max_age)
        + if secure { "; Secure"@ } else { Seq::empty() }
}

/// The `Set-Cookie` value that hands a session token to the browser;
/// `Secure` when the request came over HTTPS.
pub fn session_cookie(token: &str, secure: bool, max_age: i64) -> (c: String)
    ensures
        c@ == cookie_text(token@, secure, max_age as int),
{
    let mut c = "orch_session=".to_owned();
    push_str(&mut c, token);
    push_str(&mut c, "; HttpOnly; SameSite=Lax; Path=/; Max-Age=");
    let age = decimal_i64(max_age);
    push_str(&mut c, age.as_str());
    if secure {
        push_str(&mut c, "; Secure");
    }
    proof {
        if !secure {
            assert(c@ =~= cookie_text(token@, secure, max_age as int));
        }
    }
    c
}

/// `c` is the letter `lower` in either ASCII case.
pub open spec fn same_letter(c: char, lower: char, upper: char) -> bool {
    c == lower || c == upper
}

/// Whether a request came over HTTPS, from its `X-Forwarded-Proto` value:
/// `https` in any ASCII case.
pub open spec fn forwarded_https(proto: Option<Seq<char>>) -> bool {
    match proto {
        None => false,
        Some(p) => p.len() == 5 && same_letter(p[0], 'h', 'H') && same_letter(p[1], 't', 'T')
            && same_letter(p[2], 't', 'T') && same_letter(p[3], 'p', 'P') && same_letter(p[4], 's', 'S'),
    }
}

/// Whether the request arrived over HTTPS, given its `X-Forwarded-Proto`.
pub fn is_https(proto: Option<&str>) -> (b: bool)
    ensures
        b == forwarded_https(match proto { Some(p) => Some(p@), None => None }),
{
    match proto {
        None => false,
        Some(p) => {
            let c = chars_of(p);
            c.len() == 5 && (c[0] == 'h' || c[0] == 'H') && (c[1] == 't' || c[1] == 'T')
                && (c[2] == 't' || c[2] == 'T') && (c[3] == 'p' || c[3] == 'P')
                && (c[4] == 's' || c[4] == 'S')
        },
    }
}

/// The position of the first `=` in a string, if any.
pub open spec fn first_eq(s: Seq<char>) -> Option<int> {
    if exists|i: int| 0 <= i < s.len() && #[trigger] s[i] == '=' {
        Some(choose|i: int| 0 <= i < s.len() && #[trigger] s[i] == '=' && forall|j: int| 0 <= j < i ==> s[j] != '=')
    } else {
        None
    }
}

/// The session token in a `Cookie` header: the value of the first
/// `name=value` pair (pairs split on `;`, blanks trimmed, split at their
/// first `=`) named `orch_session`.
pub open spec fn session_in(pieces: Seq<Seq<char>>) -> Option<Seq<char>>
    decreases pieces.len(),
{
    if pieces.len() == 0 {
        None
    } else {
        match session_pair(pieces[0]) {
            Some(v) => Some(v),
            None => session_in(pieces.drop_first()),
        }
    }
}

/// Finds the first `=` in a character sequence.
fn find_eq(s: &Vec<char>) -> (r: Option<usize>)
    ensures
        match r {
            Some(i) => first_eq(s@) == Some(i as int) && i < s@.len(),
            None => first_eq(s@) is None,
        },
{
    let mut i: usize = 0;
    while i < s.len()
        invariant
            i <= s@.len(),
            forall|j: int| 0 <= j < i ==> s@[j] != '=',
        decreases s@.len() - i,
    {
        if s[i] == '=' {
            proof {
                let k = choose|k: int| 0 <= k < s@.len() && #[trigger] s@[k] == '=' && forall|j: int| 0 <= j < k ==> s@[j] != '=';
                if k < i {
                    assert(s@[k] != '=');
                }
                if i < k {
                    assert(s@[i as int] != '=');
                }
            }
            return Some(i);
        }
        i = i + 1;
    }
    None
}

/// The session token in one `;`-separated piece of a `Cookie` header.
pub open spec fn session_pair(piece: Seq<char>) -> Option<Seq<char>> {
    let kv = trimmed(piece);
    match first_eq(kv) {
        Some(i) => if kv.take(i) == "orch_session"@ { Some(kv.skip(i + 1)) } else { None },
        None => None,
    }
}

#[verifier::rlimit(40)]
fn cookie_pair(piece: &Vec<char>) -> (r: Option<String>)
    ensures
        match session_pair(piece@) {
            Some(v) => r matches Some(x) && x@ == v,
            None => r is None,
        },
{
    let text = string_of(piece);
    let kv = trim_chars(text.as_str());
    assert(kv@ == trimmed(piece@));
    let e = match find_eq(&kv) {
        Some(e) => e,
        None => return None,
    };
    let mut key: Vec<char> = Vec::new();
    let mut j: usize = 0;
    while j < e
        invariant
            j <= e < kv@.len(),
            key@ == kv@.take(j as int),
        decreases e - j,
    {
        key.push(kv[j]);
        proof {
            assert(kv@.take(j + 1) =~= kv@.take(j as int).push(kv@[j as int]));
        }
        j = j + 1;
    }
    let key_text = string_of(&key);
    assert(key_text@ == kv@.take(e as int));
    if !crate::text::str_eq(key_text.as_str(), "orch_session") {
        return None;
    }
    assert(e < kv.len());
    let mut v: Vec<char> = Vec::new();
    let mut k: usize = e + 1;
    while k < kv.len()
        invariant
            e + 1 <= k <= kv@.len(),
            v@ == kv@.subrange(e + 1, k as int),
        decreases kv@.len() - k,
    {
        v.push(kv[k]);
        proof {
            assert(v@ =~= kv@.subrange(e + 1, k + 1));
        }
        k = k + 1;
    }
    proof {
        assert(v@ =~= kv@.skip(e + 1));
    }
    Some(string_of(&v))
}

/// Reads the session token out of a request's `Cookie` header value (which
/// is absent, or not visible ASCII).
pub fn read_session_cookie(raw: Option<&str>) -> (r: Option<String>)
    ensures
        match raw {
            None => r is None,
            Some(h) => match session_in(split_on(h@, ';')) {
                Some(v) => r matches Some(x) && x@ == v,
                None => r is None,
            },
        },
{
    let h = match raw {
        None => return None,
        Some(h) => h,
    };
    let pieces = split_chars(&chars_of(h), ';');
    let ghost ps = split_on(h@, ';');
    let mut i: usize = 0;
    proof {
        assert(ps.skip(0) =~= ps);
    }
    while i < pieces.len()
        invariant
            i <= pieces@.len(),
            raw == Some(h),
            ps == split_on(h@, ';'),
            pieces@.len() == ps.len(),
            forall|k: int| 0 <= k < pieces@.len() ==> #[trigger] pieces@[k]@ == ps[k],
            session_in(ps) == session_in(ps.skip(i as int)),
        decreases pieces@.len() - i,
    {
        let ghost rest = ps.skip(i as int);
        proof {
            assert(rest[0] == ps[i as int]);
            assert(rest.drop_first() =~= ps.skip(i + 1));
        }
        assert(pieces@[i as int]@ == ps[i as int]);
        if let Some(v) = cookie_pair(&pieces[i]) {
            assert(rest.len() > 0);
            assert(session_pair(rest[0]) == Some(v@));
            assert(session_in(rest) == Some(v@));
            return Some(v);
        }
        i = i + 1;
    }
    None
}


/// Bytes from the operating system's random source, by `getrandom::fill`;
/// the error's message when it fails. The bytes are chance: only their
/// number is stated.
#[verifier::external_body]
fn os_random(n: usize) -> (r: Result<Vec<u8>, String>)
    ensures
        r matches Ok(b) ==> b@.len() == n,
{
    let mut buf = vec![0u8; n];
    match getrandom::fill(&mut buf) {
        Ok(()) => Ok(buf),
        Err(e) => Err(e.to_string()),
    }
}

/// The B64 salt string of some bytes, by `SaltString::encode_b64`: its text,
/// or the error's message.
pub uninterp spec fn salt_b64(bytes: Seq<u8>) -> Result<Seq<char>, Seq<char>>;

/// Encodes salt bytes as a B64 salt string. Named, not stated; the crate
/// takes any input of at most 48 bytes (64 characters).
#[verifier::external_body]
fn encode_salt(bytes: &[u8]) -> (r: Result<String, String>)
    ensures
        match r {
            Ok(s) => salt_b64(bytes@) == Ok::<_, Seq<char>>(s@),
            Err(e) => salt_b64(bytes@) == Err::<Seq<char>, _>(e@),
        },
        bytes@.len() <= 48 ==> r is Ok,
{
    match SaltString::encode_b64(bytes) {
        Ok(s) => Ok(s.as_str().to_owned()),
        Err(e) => Err(e.to_string()),
    }
}

/// The PHC string that argon2id with the crate's default parameters makes
/// of a password and a B64 salt, or the error's message.
pub uninterp spec fn phc_hash(password: Seq<char>, salt: Seq<char>) -> Result<Seq<char>, Seq<char>>;

/// Whether a password matches a PHC string under argon2: the string parses
/// and the password hashes, with its parameters, to its output.
pub uninterp spec fn phc_verifies(password: Seq<char>, phc: Seq<char>) -> bool;

/// Hashes a password by `Argon2::default().hash_password` (argon2id, the
/// crate's default parameters), written out by `PasswordHash`'s `Display`
/// as a PHC string. Named, not stated; the string names the algorithm
/// first, and the password verifies against it.
#[verifier::external_body]
fn argon2_phc(password: &str, salt: &str) -> (r: Result<String, String>)
    ensures
        match r {
            Ok(h) => phc_hash(password@, salt@) == Ok::<_, Seq<char>>(h@),
            Err(e) => phc_hash(password@, salt@) == Err::<Seq<char>, _>(e@),
        },
        r matches Ok(h) ==> h@.len() >= 10 && h@.take(10) == "$argon2id$"@,
        r matches Ok(h) ==> phc_verifies(password@, h@),
{
    let salt = match Salt::from_b64(salt) {
        Ok(s) => s,
        Err(e) => return Err(e.to_string()),
    };
    match Argon2::default().hash_password(password.as_bytes(), salt) {
        Ok(h) => Ok(h.to_string()),
        Err(e) => Err(e.to_string()),
    }
}

/// Checks a password against a PHC string by `PasswordHash::new` and
/// `Argon2::default().verify_password`; a string that does not parse
/// matches nothing.
#[verifier::external_body]
fn argon2_verify(password: &str, phc: &str) -> (b: bool)
    ensures
        b == phc_verifies(password@, phc@),
{
    match PasswordHash::new(phc) {
        Ok(parsed) => Argon2::default().verify_password(password.as_bytes(), &parsed).is_ok(),
        Err(_) => false,
    }
}

/// Hashes a password with argon2id under a fresh random 16-byte salt, as a
/// PHC string for storage. The password verifies against what comes back.
pub fn hash_password(password: &str) -> (r: Result<String, String>)
    ensures
        r matches Ok(h) ==> {
            &&& phc_verifies(password@, h@)
            &&& h@.len() >= 10 && h@.take(10) == "$argon2id$"@
            &&& exists|salt: Seq<u8>| #![trigger salt_b64(salt)] salt.len() == 16 && (salt_b64(salt) matches Ok(text)
                && phc_hash(password@, text) == Ok::<_, Seq<char>>(h@))
        },
{
    let salt = os_random(16)?;
    let text = encode_salt(salt.as_slice())?;
    let r = argon2_phc(password, text.as_str());
    proof {
        if r is Ok {
            assert(salt_b64(salt@) matches Ok(t) && phc_hash(password@, t) == Ok::<_, Seq<char>>(r->Ok_0@));
        }
    }
    r
}

/// Whether a password matches a stored PHC hash; a malformed hash matches
/// nothing.
pub fn verify_password(password: &str, phc: &str) -> (b: bool)
    ensures
        b == phc_verifies(password@, phc@),
{
    argon2_verify(password, phc)
}

/// Two lowercase hex digits per byte.
pub open spec fn hex_text(bytes: Seq<u8>) -> Seq<char>
    decreases bytes.len(),
{
    if bytes.len() == 0 {
        seq![]
    } else {
        hex_text(bytes.drop_last()) + seq![hex_digit(bytes.last() as int / 16), hex_digit(bytes.last() as int % 16)]
    }
}

/// Bytes in lowercase hex.
pub fn hex_encode(bytes: &[u8]) -> (s: String)
    ensures
        s@ == hex_text(bytes@),
{
    let mut s = String::new();
    let mut i: usize = 0;
    while i < bytes.len()
        invariant
            i <= bytes@.len(),
            s@ == hex_text(bytes@.take(i as int)),
        decreases bytes@.len() - i,
    {
        let b = bytes[i];
        proof {
            assert(bytes@.take(i + 1).drop_last() =~= bytes@.take(i as int));
            assert(bytes@.take(i + 1).last() == b);
        }
        crate::text::push_char(&mut s, hex_char((b / 16) as u32));
        crate::text::push_char(&mut s, hex_char((b % 16) as u32));
        i = i + 1;
    }
    proof {
        assert(bytes@.take(bytes@.len() as int) =~= bytes@);
    }
    s
}

/// A fresh 256-bit session token: 32 random bytes in hex, 64 characters;
/// `None` when the operating system's random source fails.
pub fn new_session_token() -> (r: Option<String>)
    ensures
        r matches Some(t) ==> t@.len() == 64 && exists|b: Seq<u8>| b.len() == 32 && t@ == #[trigger] hex_text(b),
{
    match os_random(32) {
        Ok(b) => {
            proof {
                lemma_hex_text_len(b@);
            }
            Some(hex_encode(b.as_slice()))
        },
        Err(_) => None,
    }
}

/// Hex text is two characters per byte.
proof fn lemma_hex_text_len(bytes: Seq<u8>)
    ensures
        hex_text(bytes).len() == 2 * bytes.len(),
    decreases bytes.len(),
{
    if bytes.len() > 0 {
        lemma_hex_text_len(bytes.drop_last());
    }
}


/// How long a session lasts: 30 days, in seconds.
pub const SESSION_TTL_SECS: i64 = 2_592_000;

/// Why first-run setup refuses an account, if it does: a blank username, or
/// a password shorter than 8 bytes.
pub open spec fn setup_problem(username: Seq<char>, password: Seq<char>) -> Option<Seq<char>> {
    if trimmed(username).len() == 0 {
        Some("username is required"@)
    } else if vstd::utf8::encode_utf8(password).len() < 8 {
        Some("password must be at least 8 characters"@)
    } else {
        None
    }
}

/// Checks the first account's username and password.
pub fn setup_error(username: &str, password: &str) -> (r: Option<String>)
    ensures
        match r {
            Some(m) => setup_problem(username@, password@) == Some(m@),
            None => setup_problem(username@, password@) is None,
        },
{
    if trim_chars(username).len() == 0 {
        Some("username is required".to_owned())
    } else if password.as_bytes().len() < 8 {
        Some("password must be at least 8 characters".to_owned())
    } else {
        None
    }
}

} // verus!
