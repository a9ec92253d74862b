//! Secret names, how a secret value is sealed for storage and opened
//! again, and the errors of the secret store.

use vstd::prelude::*;
use vstd::utf8::{decode_utf8, encode_utf8, valid_utf8};
use chacha20poly1305::aead::{Aead, Generate};
use chacha20poly1305::{ChaCha20Poly1305, Key, KeyInit, Nonce};
use crate::config::{debug_quoted, debug_text};
use crate::text::{chars_of, decimal, decimal_u64, push_str};

verus! {

/// The longest secret name.
pub const MAX_NAME_LEN: usize = 128;

/// Errors of the secret store.
#[derive(Debug)]
pub enum SecretsError {
    /// Reading or writing the key file failed.
    Io(String),
    /// Encryption or decryption failed (wrong key, corrupted or truncated blob).
    Crypto(String),
    /// The database failed.
    Db(String),
    /// The secret name is not a valid identifier.
    InvalidName(String),
    /// The key file exists but does not hold exactly 32 bytes.
    InvalidKeyFile(String),
}

/// A stored secret, without its value.
#[derive(Debug, Clone)]
pub struct SecretMeta {
    /// Name, as referenced in `{{ secrets.NAME }}`.
    pub name: String,
    /// RFC 3339 time of creation.
    pub created_at: String,
    /// RFC 3339 time of the latest update.
    pub updated_at: String,
}

pub open spec fn is_name_start(c: char) -> bool {
    ('a' <= c && c <= 'z') || ('A' <= c && c <= 'Z') || c == '_'
}

pub open spec fn is_name_char(c: char) -> bool {
    is_name_start(c) || ('0' <= c && c <= '9')
}

/// `[A-Za-z_][A-Za-z0-9_]*`, at most 128 characters.
pub open spec fn valid_secret_name(s: Seq<char>) -> bool {
    &&& 0 < s.len() <= 128
    &&& is_name_start(s[0])
    &&& forall|k: int| 1 <= k < s.len() ==> is_name_char(#[trigger] s[k])
}

/// Checks a secret name: `Ok` exactly for a valid one.
pub fn validate_name(name: &str) -> (r: Result<(), SecretsError>)
    ensures
        r is Ok <==> valid_secret_name(name@),
        r matches Err(SecretsError::InvalidName(n)) ==> n@ == name@,
        r is Err ==> r matches Err(SecretsError::InvalidName(_)),
{
    let c = chars_of(name);
    let mut valid = c.len() > 0 && c.len() <= MAX_NAME_LEN;
    if valid {
        let f = c[0];
        valid = ('a' <= f && f <= 'z') || ('A' <= f && f <= 'Z') || f == '_';
    }
    let mut k: usize = 1;
    while valid && k < c.len()
        invariant
            c@ == name@,
            1 <= k <= c@.len() || !valid,
            valid ==> (0 < c@.len() <= 128 && is_name_start(c@[0])
                && forall|j: int| 1 <= j < k ==> is_name_char(#[trigger] c@[j])),
            !valid ==> !valid_secret_name(name@),
        decreases c@.len() - k + (if valid { 1int } else { 0int }),
    {
        let ch = c[k];
        if !(('a' <= ch && ch <= 'z') || ('A' <= ch && ch <= 'Z') || ch == '_' || ('0' <= ch && ch <= '9')) {
            valid = false;
        } else {
            k = k + 1;
        }
    }
    if valid {
        Ok(())
    } else {
        Err(SecretsError::InvalidName(name.to_owned()))
    }
}

/// The message of a secret store error.
pub open spec fn secrets_error_text(e: SecretsError) -> Seq<char> {
    match e {
        SecretsError::Io(m) => "keyfile I/O error: "@ + m@,
        SecretsError::Crypto(m) => "crypto error: "@ + m@,
        SecretsError::Db(m) => "database error: "@ + m@,
        SecretsError::InvalidName(n) => "invalid secret name "@ + debug_text(n@)
            + ": must match [A-Za-z_][A-Za-z0-9_]* and be at most 128 characters"@,
        SecretsError::InvalidKeyFile(m) => "invalid key file: "@ + m@,
    }
}

impl SecretsError {
    /// The error's message.
    pub fn to_string(&self) -> (s: String)
        ensures
            s@ == secrets_error_text(*self),
    {
        let mut s = String::new();
        match self {
            SecretsError::Io(m) => {
                push_str(&mut s, "keyfile I/O error: ");
                push_str(&mut s, m.as_str());
            },
            SecretsError::Crypto(m) => {
                push_str(&mut s, "crypto error: ");
                push_str(&mut s, m.as_str());
            },
            SecretsError::Db(m) => {
                push_str(&mut s, "database error: ");
                push_str(&mut s, m.as_str());
            },
            SecretsError::InvalidName(n) => {
                push_str(&mut s, "invalid secret name ");
                push_str(&mut s, debug_quoted(n.as_str()).as_str());
                push_str(&mut s, ": must match [A-Za-z_][A-Za-z0-9_]* and be at most 128 characters");
            },
            SecretsError::InvalidKeyFile(m) => {
                push_str(&mut s, "invalid key file: ");
                push_str(&mut s, m.as_str());
            },
        }
        s
    }
}


/// The length of the nonce stored in front of every sealed value.
pub const NONCE_LEN: usize = 12;

/// The length of the key.
pub const KEY_LEN: usize = 32;

/// What ChaCha20-Poly1305 under a key and a nonce makes of a plaintext:
/// the ciphertext followed by its tag, or nothing when it refuses.
pub uninterp spec fn sealed(key: Seq<u8>, nonce: Seq<u8>, plain: Seq<u8>) -> Option<Seq<u8>>;

/// What ChaCha20-Poly1305 under a key and a nonce recovers from a
/// ciphertext with its tag, or nothing when the tag does not verify.
pub uninterp spec fn opened(key: Seq<u8>, nonce: Seq<u8>, ciphertext: Seq<u8>) -> Option<Seq<u8>>;

/// Encrypts by `<ChaCha20Poly1305 as Aead>::encrypt`, without associated
/// data. The ciphertext is named, not stated; the crate refuses exactly the
/// plaintexts of `u32::MAX` blocks of 64 bytes or more, and what it seals
/// opens again under the same key and nonce to the plaintext.
#[verifier::external_body]
fn encrypt(key: &[u8], nonce: &[u8], plain: &[u8]) -> (r: Option<Vec<u8>>)
    requires
        key@.len() == KEY_LEN,
        nonce@.len() == NONCE_LEN,
    ensures
        match r {
            Some(c) => sealed(key@, nonce@, plain@) == Some(c@),
            None => sealed(key@, nonce@, plain@) is None,
        },
        r is Some <==> plain@.len() / 64 < 0xffff_ffff,
        r matches Some(c) ==> opened(key@, nonce@, c@) == Some(plain@),
{
    let cipher = ChaCha20Poly1305::new(&Key::try_from(key).expect("32-byte key"));
    let nonce = Nonce::try_from(nonce).expect("12-byte nonce");
    cipher.encrypt(&nonce, plain).ok()
}

/// Decrypts by `<ChaCha20Poly1305 as Aead>::decrypt`, without associated
/// data. The plaintext is named, not stated.
#[verifier::external_body]
fn decrypt(key: &[u8], nonce: &[u8], ciphertext: &[u8]) -> (r: Option<Vec<u8>>)
    requires
        key@.len() == KEY_LEN,
        nonce@.len() == NONCE_LEN,
    ensures
        match r {
            Some(p) => opened(key@, nonce@, ciphertext@) == Some(p@),
            None => opened(key@, nonce@, ciphertext@) is None,
        },
{
    let cipher = ChaCha20Poly1305::new(&Key::try_from(key).expect("32-byte key"));
    let nonce = Nonce::try_from(nonce).expect("12-byte nonce");
    cipher.decrypt(&nonce, ciphertext).ok()
}

/// A random nonce from the operating system's generator, by
/// `Nonce::try_generate`; the error's message when that fails. Its bytes
/// are chance: only their number is stated.
#[verifier::external_body]
fn fresh_nonce() -> (r: Result<Vec<u8>, String>)
    ensures
        r matches Ok(n) ==> n@.len() == NONCE_LEN,
{
    match Nonce::try_generate() {
        Ok(n) => Ok(n.to_vec()),
        Err(e) => Err(e.to_string()),
    }
}

/// The text that UTF-8 bytes spell, by `String::from_utf8`: there is one
/// exactly when the bytes are valid UTF-8.
#[verifier::external_body]
fn utf8_text(bytes: Vec<u8>) -> (r: Option<String>)
    ensures
        r is Some <==> valid_utf8(bytes@),
        r matches Some(s) ==> s@ == decode_utf8(bytes@),
{
    String::from_utf8(bytes).ok()
}

/// The stored form of a secret value: the nonce, then the value's UTF-8
/// bytes sealed under the key and that nonce.
pub open spec fn seal_text(key: Seq<u8>, nonce: Seq<u8>, value: Seq<char>) -> Option<Seq<u8>> {
    match sealed(key, nonce, encode_utf8(value)) {
        Some(c) => Some(nonce + c),
        None => None,
    }
}

/// What a stored secret opens to under a key: its value, or the message of
/// why it cannot be read.
pub open spec fn open_text(key: Seq<u8>, name: Seq<char>, blob: Seq<u8>) -> Result<Seq<char>, Seq<char>> {
    if blob.len() < NONCE_LEN {
        Err("stored blob for secret '"@ + name + "' is truncated ("@ + decimal(blob.len())
            + " bytes, expected at least 12)"@)
    } else {
        match opened(key, blob.take(NONCE_LEN as int), blob.skip(NONCE_LEN as int)) {
            None => Err("failed to decrypt secret '"@ + name + "' (wrong key or corrupted data)"@),
            Some(p) => if valid_utf8(p) {
                Ok(decode_utf8(p))
            } else {
                Err("secret '"@ + name + "' is not valid UTF-8"@)
            },
        }
    }
}

/// The framing of a stored secret: a blob made of a nonce followed by a
/// ciphertext that opens, under the key and that nonce, to the UTF-8 bytes
/// of a value opens to that value, whatever the secret is called.
pub proof fn lemma_blob_opens(key: Seq<u8>, nonce: Seq<u8>, ciphertext: Seq<u8>, name: Seq<char>, value: Seq<char>)
    requires
        nonce.len() == NONCE_LEN,
        opened(key, nonce, ciphertext) == Some(encode_utf8(value)),
    ensures
        open_text(key, name, nonce + ciphertext) == Ok::<_, Seq<char>>(value),
{
    let blob = nonce + ciphertext;
    assert(blob.take(NONCE_LEN as int) =~= nonce);
    assert(blob.skip(NONCE_LEN as int) =~= ciphertext);
    vstd::utf8::encode_utf8_valid_utf8(value);
    vstd::utf8::encode_utf8_decode_utf8(value);
}

/// `'`, the name, `'` after a prefix, then a suffix.
fn named_message(prefix: &str, name: &str, suffix: &str) -> (m: String)
    ensures
        m@ == prefix@ + name@ + suffix@,
{
    let mut m = String::new();
    push_str(&mut m, prefix);
    push_str(&mut m, name);
    push_str(&mut m, suffix);
    m
}

/// Seals a secret value with a given nonce. A value that seals opens again
/// to itself: what the store gives back of a secret is what was set.
pub fn seal_with(key: &Vec<u8>, nonce: &Vec<u8>, name: &str, value: &str) -> (r: Result<Vec<u8>, SecretsError>)
    requires
        key@.len() == KEY_LEN,
        nonce@.len() == NONCE_LEN,
    ensures
        match r {
            Ok(blob) => {
                &&& seal_text(key@, nonce@, value@) == Some(blob@)
                &&& open_text(key@, name@, blob@) == Ok::<_, Seq<char>>(value@)
            },
            Err(e) => {
                &&& seal_text(key@, nonce@, value@) is None
                &&& e matches SecretsError::Crypto(m) && m@ == "failed to encrypt secret '"@ + name@ + "'"@
            },
        },
        r is Ok <==> encode_utf8(value@).len() / 64 < 0xffff_ffff,
{
    let plain = value.as_bytes();
    match encrypt(key.as_slice(), nonce.as_slice(), plain) {
        None => Err(SecretsError::Crypto(named_message("failed to encrypt secret '", name, "'"))),
        Some(c) => {
            let mut blob: Vec<u8> = Vec::new();
            blob.extend_from_slice(nonce.as_slice());
            blob.extend_from_slice(c.as_slice());
            proof {
                assert(blob@ =~= nonce@ + c@);
                assert(plain@ == encode_utf8(value@));
                lemma_blob_opens(key@, nonce@, c@, name@, value@);
            }
            Ok(blob)
        },
    }
}

/// Seals a secret value for storage under a fresh random nonce, after
/// checking its name.
pub fn seal_secret(key: &Vec<u8>, name: &str, value: &str) -> (r: Result<Vec<u8>, SecretsError>)
    requires
        key@.len() == KEY_LEN,
    ensures
        !valid_secret_name(name@) ==> (r matches Err(SecretsError::InvalidName(n)) && n@ == name@),
        r matches Ok(blob) ==> {
            &&& valid_secret_name(name@)
            &&& blob@.len() >= NONCE_LEN
            &&& seal_text(key@, blob@.take(NONCE_LEN as int), value@) == Some(blob@)
            &&& open_text(key@, name@, blob@) == Ok::<_, Seq<char>>(value@)
        },
        r matches Err(SecretsError::InvalidName(_)) ==> !valid_secret_name(name@),
        r matches Err(SecretsError::Crypto(m)) ==> valid_secret_name(name@) && (
            (m@ == "failed to encrypt secret '"@ + name@ + "'"@ && encode_utf8(value@).len() / 64 >= 0xffff_ffff)
            || exists|e: Seq<char>| m@ == "nonce generation failed: "@ + e),
        valid_secret_name(name@) && encode_utf8(value@).len() / 64 >= 0xffff_ffff ==> r matches Err(SecretsError::Crypto(_)),
        r is Ok ==> encode_utf8(value@).len() / 64 < 0xffff_ffff,
        r matches Err(e) ==> (e is InvalidName || e is Crypto),
{
    match validate_name(name) {
        Err(e) => return Err(e),
        Ok(()) => {},
    }
    let nonce = match fresh_nonce() {
        Ok(n) => n,
        Err(e) => {
            let mut m = "nonce generation failed: ".to_owned();
            push_str(&mut m, e.as_str());
            return Err(SecretsError::Crypto(m));
        },
    };
    let r = seal_with(key, &nonce, name, value);
    proof {
        if r is Ok {
            assert(r->Ok_0@.take(NONCE_LEN as int) =~= nonce@);
        }
    }
    r
}

/// Opens a stored secret under the key: its value, or a crypto error
/// naming the secret.
pub fn open_secret(key: &Vec<u8>, name: &str, blob: &Vec<u8>) -> (r: Result<String, SecretsError>)
    requires
        key@.len() == KEY_LEN,
    ensures
        match r {
            Ok(s) => open_text(key@, name@, blob@) == Ok::<_, Seq<char>>(s@),
            Err(e) => e matches SecretsError::Crypto(m) && open_text(key@, name@, blob@) == Err::<Seq<char>, _>(m@),
        },
{
    if blob.len() < NONCE_LEN {
        let mut m = named_message("stored blob for secret '", name, "' is truncated (");
        push_str(&mut m, decimal_u64(blob.len() as u64).as_str());
        push_str(&mut m, " bytes, expected at least 12)");
        return Err(SecretsError::Crypto(m));
    }
    let (nonce, ciphertext) = blob.as_slice().split_at(NONCE_LEN);
    proof {
        assert(nonce@ =~= blob@.take(NONCE_LEN as int));
        assert(ciphertext@ =~= blob@.skip(NONCE_LEN as int));
    }
    match decrypt(key.as_slice(), nonce, ciphertext) {
        None => Err(SecretsError::Crypto(named_message(
            "failed to decrypt secret '", name, "' (wrong key or corrupted data)"))),
        Some(p) => match utf8_text(p) {
            Some(s) => Ok(s),
            None => Err(SecretsError::Crypto(named_message("secret '", name, "' is not valid UTF-8"))),
        },
    }
}

/// What reading a secret gives, from the blob stored under its name: none
/// when nothing is stored, else the blob opened under the key.
pub open spec fn stored_value(key: Seq<u8>, name: Seq<char>, row: Option<Seq<u8>>) -> Result<Option<Seq<char>>, Seq<char>> {
    match row {
        None => Ok(None),
        Some(blob) => match open_text(key, name, blob) {
            Ok(v) => Ok(Some(v)),
            Err(m) => Err(m),
        },
    }
}

/// The value of a secret from the blob stored under its name, if any.
pub fn secret_from_row(key: &Vec<u8>, name: &str, row: Option<Vec<u8>>) -> (r: Result<Option<String>, SecretsError>)
    requires
        key@.len() == KEY_LEN,
    ensures
        match stored_value(key@, name@, match row { Some(b) => Some(b@), None => None }) {
            Ok(v) => r matches Ok(x) && match x { Some(s) => v == Some(s@), None => v is None },
            Err(m) => r matches Err(SecretsError::Crypto(e)) && e@ == m,
        },
{
    match row {
        None => Ok(None),
        Some(blob) => match open_secret(key, name, &blob) {
            Ok(v) => Ok(Some(v)),
            Err(e) => Err(e),
        },
    }
}

/// A secret reads back as what was set: once `seal_secret` has turned a
/// value into a blob (which then opens to the value, as its contract
/// states) and that blob is stored under the name, reading the name gives
/// the value.
pub proof fn lemma_set_then_get(key: Seq<u8>, name: Seq<char>, value: Seq<char>, blob: Seq<u8>)
    requires
        open_text(key, name, blob) == Ok::<_, Seq<char>>(value),
    ensures
        stored_value(key, name, Some(blob)) == Ok::<_, Seq<char>>(Some(value)),
{
}

/// The key from the bytes of the key file at `path`: exactly 32 of them.
pub fn key_from_file(path: &str, bytes: Vec<u8>) -> (r: Result<Vec<u8>, SecretsError>)
    ensures
        bytes@.len() == KEY_LEN ==> (r matches Ok(k) && k@ == bytes@),
        bytes@.len() != KEY_LEN ==> (r matches Err(SecretsError::InvalidKeyFile(m))
            && m@ == path@ + " must contain exactly 32 bytes, found "@ + decimal(bytes@.len())),
{
    if bytes.len() == KEY_LEN {
        Ok(bytes)
    } else {
        let mut m = String::new();
        push_str(&mut m, path);
        push_str(&mut m, " must contain exactly 32 bytes, found ");
        push_str(&mut m, decimal_u64(bytes.len() as u64).as_str());
        Err(SecretsError::InvalidKeyFile(m))
    }
}

} // verus!
