//! Content addressing: the cryptographic digest that identifies every record.

use vstd::prelude::*;

verus! {

/// The digest of a byte string, rendered as 64 lowercase hexadecimal
/// characters. The digest is a function of the bytes alone; nothing further
/// is assumed of it.
pub uninterp spec fn blake3_hex(data: Seq<u8>) -> Seq<char>;

/// A lowercase hexadecimal digit.
pub open spec fn is_lower_hex(c: char) -> bool {
    (('0' as u32) <= (c as u32) && (c as u32) <= ('9' as u32)) || (('a' as u32) <= (c as u32) && (
    c as u32) <= ('f' as u32))
}

/// A 64-character lowercase-hexadecimal digest string.
pub open spec fn is_digest(s: Seq<char>) -> bool {
    s.len() == 64 && forall|i: int| 0 <= i < s.len() ==> is_lower_hex(#[trigger] s[i])
}

/// Relies on `blake3::hash` and `blake3::Hash::to_hex`: the digest depends on
/// the input bytes alone and is rendered as 64 lowercase hexadecimal
/// characters.
#[verifier::external_body]
fn blake3_hash_hex(data: &[u8]) -> (r: String)
    ensures
        r@ == blake3_hex(data@),
        is_digest(r@),
{
    blake3::hash(data).to_hex().as_str().to_string()
}

/// The content address of a byte string: its digest in lowercase hex.
pub fn content_digest(data: &[u8]) -> (r: String)
    ensures
        r@ == blake3_hex(data@),
        is_digest(r@),
{
    blake3_hash_hex(data)
}

} // verus!
