use sha2::{Digest, Sha256};
use vstd::prelude::*;
use vstd::string::*;
use vstd::utf8::{decode_utf8, encode_utf8, encode_utf8_decode_utf8, valid_utf8};

verus! {

/// The SHA-256 digest of a message, as the `sha2` crate computes it.
pub uninterp spec fn sha256_of(message: Seq<u8>) -> Seq<u8>;

/// `Sha256::digest` of the `sha2` crate. Taken on trust: the bytes returned
/// are a function of the bytes of the message alone.
#[verifier::external_body]
fn sha256_digest(message: &[u8]) -> (digest: Vec<u8>)
    ensures
        digest@ == sha256_of(message@),
{
    Sha256::digest(message).to_vec()
}

/// `String::from_utf8` of the standard library. Taken on trust: it succeeds
/// exactly on well-formed UTF-8, and the text it then returns is made of the
/// very bytes it was given.
#[verifier::external_body]
fn text_from_utf8(bytes: Vec<u8>) -> (text: Option<String>)
    ensures
        match text {
            Some(decoded) => valid_utf8(bytes@) && encode_utf8(decoded@) == bytes@,
            None => !valid_utf8(bytes@),
        },
{
    match String::from_utf8(bytes) {
        Ok(decoded) => Some(decoded),
        Err(_) => None,
    }
}

/// The SHA-256 digest of the UTF-8 bytes of a text.
pub open spec fn sha256_of_text(text: Seq<char>) -> Seq<u8> {
    sha256_of(encode_utf8(text))
}

/// The SHA-256 digest of `value`, read as text. Only for a value whose
/// digest is well-formed UTF-8; `try_sha256_hash` finds out whether it is.
pub fn sha256_hash(value: &str) -> (hash: crate::Hash)
    requires
        valid_utf8(sha256_of_text(value@)),
    ensures
        hash@ == decode_utf8(sha256_of_text(value@)),
{
    let digest = sha256_digest(value.as_bytes());
    let text = text_from_utf8(digest).unwrap();
    proof {
        encode_utf8_decode_utf8(text@);
    }
    crate::Hash::new(text.as_str())
}

/// The SHA-256 digest of `value`, read as text, where the digest is
/// well-formed UTF-8, and nothing where it is not.
pub fn try_sha256_hash(value: &str) -> (hash: Option<crate::Hash>)
    ensures
        match hash {
            Some(hash) => valid_utf8(sha256_of_text(value@)) && hash@ == decode_utf8(
                sha256_of_text(value@),
            ),
            None => !valid_utf8(sha256_of_text(value@)),
        },
{
    let digest = sha256_digest(value.as_bytes());
    if text_from_utf8(digest).is_some() {
        Some(sha256_hash(value))
    } else {
        None
    }
}

} // verus!
