//! Overwriting buffers that held secrets before they are released.

use vstd::prelude::*;
use zeroize::Zeroize;

verus! {

/// Scrubs a byte buffer with `Zeroize::zeroize` of the `zeroize` crate,
/// which overwrites the bytes and the spare capacity with zeros in a way
/// that the compiler does not remove, then empties the vector.
///
/// Trusted, not proved: that the vector is empty afterwards.
#[verifier::external_body]
pub(crate) fn scrub_bytes(buf: &mut Vec<u8>)
    ensures
        final(buf)@ == Seq::<u8>::empty(),
{
    buf.zeroize();
}

/// Scrubs a buffer of words with `Zeroize::zeroize` of the `zeroize` crate,
/// which overwrites the words and the spare capacity with zeros in a way
/// that the compiler does not remove, then empties the vector.
///
/// Trusted, not proved: that the vector is empty afterwards.
#[verifier::external_body]
pub(crate) fn scrub_words(buf: &mut Vec<u64>)
    ensures
        final(buf)@ == Seq::<u64>::empty(),
{
    buf.zeroize();
}

} // verus!
