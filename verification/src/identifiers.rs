use sha2::Digest;
use vstd::prelude::*;

verus! {

/// The SHA-256 digest of a byte string, as the `sha2` crate computes it.
pub uninterp spec fn sha256_digest(data: Seq<u8>) -> Seq<u8>;

/// The lower-case hexadecimal digit for a value below sixteen.
pub open spec fn hex_digit(n: int) -> char {
    if n < 10 {
        (48 + n) as u8 as char
    } else {
        (87 + n) as u8 as char
    }
}

/// Lower-case hexadecimal text: two digits for each byte, the high half first.
pub open spec fn hex_lower(bytes: Seq<u8>) -> Seq<char> {
    Seq::new(
        2 * bytes.len(),
        |i: int|
            if i % 2 == 0 {
                hex_digit(bytes[i / 2] as int / 16)
            } else {
                hex_digit(bytes[i / 2] as int % 16)
            },
    )
}

/// The stored form of an identifier: the SHA-256 digest of its UTF-8
/// bytes, in lower-case hexadecimal.
pub open spec fn hashed_form(text: Seq<char>) -> Seq<char> {
    hex_lower(sha256_digest(vstd::utf8::encode_utf8(text)))
}

/// `sha2::Sha256::digest`: the result is the SHA-256 digest of `data`, a
/// function of the bytes alone. Nothing is proved of the digest itself.
#[verifier::external_body]
fn sha256(data: &[u8]) -> (out: Vec<u8>)
    ensures
        out@ == sha256_digest(data@),
{
    sha2::Sha256::digest(data).to_vec()
}

/// `hex::encode`: each byte becomes two digits out of `0123456789abcdef`,
/// the high half first, as the crate's documentation and its digit table say.
#[verifier::external_body]
fn hex_encode(bytes: &[u8]) -> (text: String)
    ensures
        text@ == hex_lower(bytes@),
{
    hex::encode(bytes)
}

/// The text form of a digest that has already been computed.
pub fn digest_text(digest: &Vec<u8>) -> (text: String)
    ensures
        text@ == hex_lower(digest@),
        text@.len() == 2 * digest@.len(),
{
    hex_encode(digest.as_slice())
}

/// The form in which a phone number or an e-mail address is stored and
/// looked up: the SHA-256 digest of its bytes, in lower-case hexadecimal.
pub fn hash_identifier(input: &str) -> (hashed: String)
    ensures
        hashed@ == hashed_form(input@),
{
    let digest = sha256(input.as_bytes());
    digest_text(&digest)
}

/// The stored forms of the two optional identifiers of an account.
pub fn identifier_hashes(phone: &Option<String>, email: &Option<String>) -> (hashes: (Option<String>, Option<String>))
    ensures
        match phone {
            Some(p) => hashes.0 is Some && hashes.0->Some_0@ == hashed_form(p@),
            None => hashes.0 is None,
        },
        match email {
            Some(e) => hashes.1 is Some && hashes.1->Some_0@ == hashed_form(e@),
            None => hashes.1 is None,
        },
{
    let phone_hash = match phone {
        Some(p) => Some(hash_identifier(p.as_str())),
        None => None,
    };
    let email_hash = match email {
        Some(e) => Some(hash_identifier(e.as_str())),
        None => None,
    };
    (phone_hash, email_hash)
}

} // verus!
