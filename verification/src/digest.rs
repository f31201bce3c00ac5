use vstd::prelude::*;

verus! {

/// The SHA-256 digest of `data`, written as lowercase hexadecimal characters.
/// The value is a function of `data` alone; nothing is assumed about it
/// beyond what the trusted wrapper below states.
pub uninterp spec fn sha256_hex(data: Seq<u8>) -> Seq<char>;

/// A character that the digest's hexadecimal rendering can produce.
pub open spec fn is_hex_char(c: char) -> bool {
    ('0' <= c && c <= '9') || ('a' <= c && c <= 'f')
}

/// Relies on crypto::sha2::Sha256 through crypto::digest::Digest::result_str:
/// the digest depends on the input bytes alone and is rendered as 64
/// lowercase hexadecimal characters (two per digest byte, 256 bits in all).
#[verifier::external_body]
pub(crate) fn sha256_hex_string(data: &[u8]) -> (r: String)
    ensures
        r@ == sha256_hex(data@),
        r@.len() == 64,
        forall|i: int| 0 <= i < 64 ==> is_hex_char(#[trigger] r@[i]),
{
    let mut hasher = crypto::sha2::Sha256::new();
    crypto::digest::Digest::input(&mut hasher, data);
    crypto::digest::Digest::result_str(&mut hasher)
}

} // verus!
