//! Trusted surface over the base64 encoder used for the text form of the
//! packed day flags.

use vstd::prelude::*;

verus! {

/// The base64 text of a byte string, standard alphabet with padding.
pub uninterp spec fn b64_of(bytes: Seq<u8>) -> Seq<char>;

/// Relies on base64::encode: the standard-alphabet, padded encoding, a pure
/// function of the input bytes; empty input gives empty output.
#[verifier::external_body]
pub fn base64_encode(bytes: &Vec<u8>) -> (r: String)
    ensures
        r@ == b64_of(bytes@),
        bytes@.len() == 0 ==> r@.len() == 0,
{
    base64::encode(bytes.as_slice())
}

} // verus!
