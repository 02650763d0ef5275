//! SHA-1 digests of byte strings.
use vstd::prelude::*;

verus! {

/// The longest input whose length in bits fits in the 64-bit length field that
/// a SHA-1 digest ends with.
pub const MAX_HASHED_LEN: u64 = 0x1fff_ffff_ffff_ffff;

/// The SHA-1 digest of a byte string: twenty bytes, most significant first.
pub uninterp spec fn sha1_of(data: Seq<u8>) -> Seq<u8>;

/// A hexadecimal digit, in lower case.
pub open spec fn hex_digit(n: int) -> char {
    if n < 10 {
        (48 + n) as char
    } else {
        (87 + n) as char
    }
}

/// The lower case hexadecimal text of a byte string, two digits a byte.
pub open spec fn hex_of(data: Seq<u8>) -> Seq<char> {
    Seq::new(
        2 * data.len(),
        |i: int|
            if i % 2 == 0 {
                hex_digit(data[i / 2] as int / 16)
            } else {
                hex_digit(data[i / 2] as int % 16)
            },
    )
}

/// `sha1_smol::Sha1::from` followed by `digest` and `bytes`: the digest depends
/// on the bytes alone and is named by [`sha1_of`].
///
/// The bit count that the digest ends with is computed in 64 bits, so longer
/// inputs are left out.
#[verifier::external_body]
pub(crate) fn sha1_digest(data: &[u8]) -> (digest: [u8; 20])
    requires
        data@.len() <= MAX_HASHED_LEN,
    ensures
        digest@ == sha1_of(data@),
{
    sha1_smol::Sha1::from(data).digest().bytes()
}

/// `sha1_smol::Sha1::from` followed by `hexdigest`: the lower case hexadecimal
/// text of the same digest.
#[verifier::external_body]
pub(crate) fn sha1_hexdigest(data: &[u8]) -> (text: String)
    requires
        data@.len() <= MAX_HASHED_LEN,
    ensures
        text@ == hex_of(sha1_of(data@)),
{
    sha1_smol::Sha1::from(data).hexdigest()
}

} // verus!
