//! Client authentication. The one scheme is `digest`, whose credentials are
//! `user:password`; the identity it yields is the user followed by the
//! Base64 of the SHA-1 of the whole credentials, as ZooKeeper forms it.

use vstd::prelude::*;
use vstd::string::*;
use vstd::utf8::*;
use base64::Engine;
use sha1::Digest;
use crate::text::{split_once_spec, str_eq, str_from_utf8, str_split_once, string_push, string_push_str};

verus! {

broadcast use vstd::utf8::encode_utf8_decode_utf8;

/// The SHA-1 hash of some bytes.
pub uninterp spec fn sha1_of(data: Seq<u8>) -> Seq<u8>;

/// The standard Base64 text of some bytes (with padding).
pub uninterp spec fn base64_of(data: Seq<u8>) -> Seq<char>;

/// `sha1::Sha1::digest`: the SHA-1 hash of `data`, 20 bytes long. The hash
/// itself is named, not stated.
#[verifier::external_body]
fn sha1_digest(data: &[u8]) -> (r: Vec<u8>)
    ensures
        r@ == sha1_of(data@),
        r@.len() == 20,
{
    sha1::Sha1::digest(data).to_vec()
}

/// `Engine::encode` of `base64::engine::general_purpose::STANDARD`: the
/// padded Base64 text of `data`, named, not stated. The crate panics when
/// the length of the text overflows `usize`, which `requires` rules out.
#[verifier::external_body]
fn base64_standard(data: &[u8]) -> (r: String)
    requires
        (data@.len() / 3) * 4 + (if data@.len() % 3 > 0 {
            4int
        } else {
            0int
        }) <= usize::MAX,
    ensures
        r@ == base64_of(data@),
{
    base64::engine::general_purpose::STANDARD.encode(data)
}

/// An authenticated identity: a scheme and an id in it.
#[derive(Debug, PartialEq, Eq)]
pub struct AuthId {
    pub scheme: String,
    pub id: String,
}

/// Why authentication failed.
#[derive(Debug, PartialEq, Eq, Structural)]
pub enum AuthError {
    UnsupportedScheme,
    InvalidCredentials,
}

/// The user part of digest credentials: the text before the first `:`, or
/// all of it.
pub open spec fn username_of(credentials: Seq<char>) -> Seq<char> {
    match split_once_spec(credentials, ':') {
        Some((user, _)) => user,
        None => credentials,
    }
}

/// The digest id of credentials: the user, `:`, and the Base64 of the
/// SHA-1 of the whole credentials.
pub open spec fn digest_id(credentials: Seq<char>) -> Seq<char> {
    username_of(credentials) + seq![':'] + base64_of(sha1_of(encode_utf8(credentials)))
}

/// The identity that digest credentials stand for.
fn digest_identity(credentials: &str) -> (r: AuthId)
    ensures
        r.scheme@ == "digest"@,
        r.id@ == digest_id(credentials@),
{
    let username = match str_split_once(credentials, ':') {
        Some((username, _password)) => username,
        None => credentials,
    };
    let hash = sha1_digest(credentials.as_bytes());
    let encoded = base64_standard(hash.as_slice());
    let mut id = username.to_owned();
    string_push(&mut id, ':');
    string_push_str(&mut id, encoded.as_str());
    AuthId { scheme: "digest".to_owned(), id }
}

/// Authenticates `credentials` in `scheme`. Only `digest` is supported, and
/// its credentials must be UTF-8.
pub fn authenticate(scheme: &str, credentials: &[u8]) -> (r: Result<AuthId, AuthError>)
    ensures
        scheme@ != "digest"@ ==> r == Err::<AuthId, AuthError>(AuthError::UnsupportedScheme),
        scheme@ == "digest"@ && !valid_utf8(credentials@) ==> r == Err::<AuthId, AuthError>(
            AuthError::InvalidCredentials,
        ),
        scheme@ == "digest"@ && valid_utf8(credentials@) ==> (r matches Ok(a) && a.scheme@
            == "digest"@ && a.id@ == digest_id(decode_utf8(credentials@))),
{
    if str_eq(scheme, "digest") {
        match str_from_utf8(credentials) {
            Some(text) => Ok(digest_identity(text)),
            None => Err(AuthError::InvalidCredentials),
        }
    } else {
        Err(AuthError::UnsupportedScheme)
    }
}

} // verus!
