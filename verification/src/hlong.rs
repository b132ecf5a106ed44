//! The variable-length hash: BLAKE2b stretched to any length from 1 byte
//! to 2^32 - 1 bytes.

use crate::blake2b::{compress, digest, hash};
use crate::bytes::{le32, push_bytes, push_le32};
use vstd::prelude::*;

verus! {

/// What follows the first 32 bytes of a long digest: `rem` bytes, chained
/// from the 64-byte value `v`. While more than 64 bytes remain, the digest
/// of the previous value yields 32 of them; the last digest fills the rest.
pub open spec fn long_tail(v: Seq<u8>, rem: nat) -> Seq<u8>
    decreases rem,
{
    if rem <= 64 {
        digest(v, rem)
    } else {
        let w = digest(v, 64);
        w.take(32) + long_tail(w, (rem - 32) as nat)
    }
}

/// The variable-length hash of `x`, `t` bytes long. Up to 64 bytes it is the
/// BLAKE2b digest of the length `t` followed by `x`; beyond, that digest
/// starts a chain of 64-byte digests, half of each being output.
pub open spec fn long_digest(x: Seq<u8>, t: u32) -> Seq<u8> {
    if t <= 64 {
        digest(le32(t) + x, t as nat)
    } else {
        let v = digest(le32(t) + x, 64);
        v.take(32) + long_tail(v, (t - 32) as nat)
    }
}

/// The length of a BLAKE2b digest is the length asked for, up to 64 bytes.
pub proof fn lemma_digest_len(data: Seq<u8>, out_len: nat)
    requires
        out_len <= 64,
    ensures
        digest(data, out_len).len() == out_len,
{
    reveal(compress);
}

/// A chained tail has the length asked for.
pub proof fn lemma_long_tail_len(v: Seq<u8>, rem: nat)
    ensures
        long_tail(v, rem).len() == rem,
    decreases rem,
{
    if rem <= 64 {
        lemma_digest_len(v, rem);
    } else {
        lemma_digest_len(v, 64);
        lemma_long_tail_len(digest(v, 64), (rem - 32) as nat);
    }
}

/// The variable-length hash has the length asked for.
pub proof fn lemma_long_digest_len(x: Seq<u8>, t: u32)
    ensures
        long_digest(x, t).len() == t,
{
    if t <= 64 {
        lemma_digest_len(le32(t) + x, t as nat);
    } else {
        lemma_digest_len(le32(t) + x, 64);
        lemma_long_tail_len(digest(le32(t) + x, 64), (t - 32) as nat);
    }
}

/// Hashes `x` to `t` bytes.
pub fn long_hash(x: &[u8], t: u32) -> (out: Vec<u8>)
    requires
        t >= 1,
    ensures
        out@ == long_digest(x@, t),
{
    let mut input: Vec<u8> = Vec::new();
    push_le32(&mut input, t);
    push_bytes(&mut input, x, x.len());
    assert(input@ =~= le32(t) + x@);
    if t <= 64 {
        return hash(input.as_slice(), t as usize);
    }
    let mut v = hash(input.as_slice(), 64);
    let ghost first = v@;
    let mut out: Vec<u8> = Vec::new();
    proof {
        lemma_digest_len(input@, 64);
    }
    push_bytes(&mut out, v.as_slice(), 32);
    let mut rem: u32 = t - 32;
    while rem > 64
        invariant
            v@.len() == 64,
            32 < rem <= t - 32,
            out@ + long_tail(v@, rem as nat) == first.take(32) + long_tail(first, (t - 32) as nat),
        decreases rem,
    {
        let w = hash(v.as_slice(), 64);
        proof {
            lemma_digest_len(v@, 64);
        }
        let ghost before = out@;
        push_bytes(&mut out, w.as_slice(), 32);
        assert(out@ + long_tail(w@, (rem - 32) as nat) =~= before + long_tail(v@, rem as nat));
        v = w;
        rem = rem - 32;
    }
    let last = hash(v.as_slice(), rem as usize);
    proof {
        lemma_digest_len(v@, rem as nat);
    }
    let ghost before = out@;
    push_bytes(&mut out, last.as_slice(), rem as usize);
    assert(out@ =~= before + long_tail(v@, rem as nat));
    out
}

} // verus!
