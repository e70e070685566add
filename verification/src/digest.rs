//! Content digests and their text encoding, relied on for identifier
//! generation.

use vstd::prelude::*;
use groestl::Digest;

verus! {

/// The Groestl-224 digest of a byte sequence: a fixed function of the input
/// alone, left unspecified here.
pub uninterp spec fn groestl224_of(data: Seq<u8>) -> Seq<u8>;

/// The zbase32 encoding of a byte sequence: a fixed function of the input
/// alone, left unspecified here.
pub uninterp spec fn zbase32_of(data: Seq<u8>) -> Seq<char>;

/// Every character of the zbase32 alphabet is a lowercase ASCII letter or an
/// ASCII digit.
pub open spec fn is_zbase32_char(c: char) -> bool {
    ('a' as u32 <= c as u32 <= 'z' as u32) || ('0' as u32 <= c as u32 <= '9' as u32)
}

/// Relies on `groestl::Groestl224` through the `digest` traits: the digest
/// depends on the input bytes alone, and Groestl-224 produces 28 bytes.
#[verifier::external_body]
pub(crate) fn groestl224(data: &Vec<u8>) -> (r: Vec<u8>)
    ensures
        r@ == groestl224_of(data@),
        r@.len() == 28,
{
    let mut hasher = groestl::Groestl224::new();
    hasher.update(data.as_slice());
    hasher.finalize().to_vec()
}

/// Relies on `zbase32::encode_full_bytes`: the encoding depends on the input
/// bytes alone, yields one character for every five bits (rounded up), and
/// draws every character from the 32-letter alphabet
/// `ybndrfg8ejkmcpqxot1uwisza345h769` of lowercase letters and digits.
#[verifier::external_body]
pub(crate) fn zbase32_encode(data: &Vec<u8>) -> (r: String)
    ensures
        r@ == zbase32_of(data@),
        r@.len() == (data@.len() * 8 + 4) / 5,
        forall|i: int| 0 <= i < r@.len() ==> is_zbase32_char(#[trigger] r@[i]),
{
    zbase32::encode_full_bytes(data.as_slice())
}

} // verus!
