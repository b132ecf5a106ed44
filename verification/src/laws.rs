//! What holds of every derivation, whatever the parameters and inputs.

use crate::bytes::words_bytes;
use crate::derive::{final_block, initial_hash, lengths_of, outcome, seed_lanes, tag, zero_memory};
use crate::fill::fill;
use crate::geometry::Geometry;
use crate::error::{Error, ErrorKind};
use crate::hlong::lemma_long_digest_len;
use crate::params::Argon2;
use crate::validate::{lemma_no_violation_iff_valid, SaltPolicy};
use vstd::prelude::*;

verus! {

/// Determinism. Two derivations with the same parameters and the same
/// inputs that both return a tag return the same bytes, and two that both
/// fail fail with the same error. Where a bound is violated the two results
/// are equal altogether: only the allocator can tell two runs apart.
pub proof fn lemma_derivations_agree(
    params: Argon2,
    password: Seq<u8>,
    salt: Seq<u8>,
    secret: Seq<u8>,
    associated_data: Seq<u8>,
    first: Result<Vec<u8>, Error>,
    second: Result<Vec<u8>, Error>,
)
    requires
        outcome(params, password, salt, secret, associated_data, first),
        outcome(params, password, salt, secret, associated_data, second),
    ensures
        first is Ok && second is Ok ==> first->Ok_0@ == second->Ok_0@,
        first is Err && second is Err ==> first->Err_0 == second->Err_0,
        params.first_violation(
            lengths_of(password, salt, secret, associated_data),
            SaltPolicy::Any,
        ) is Some ==> first == second,
{
}

/// Length. The tag has as many bytes as the parameters ask for.
pub proof fn lemma_tag_length(
    params: Argon2,
    password: Seq<u8>,
    salt: Seq<u8>,
    secret: Seq<u8>,
    associated_data: Seq<u8>,
)
    requires
        params.hash_length <= 0xffff_ffff,
    ensures
        tag(params, password, salt, secret, associated_data).len() == params.hash_length,
{
    let g = Geometry::spec_of(params);
    let h0 = initial_hash(params, password, salt, secret, associated_data);
    let mem = fill(g, seed_lanes(g, zero_memory(g), h0, g.lanes as int));
    lemma_long_digest_len(
        words_bytes(final_block(g, mem, g.lanes as int)),
        params.hash_length as u32,
    );
}

/// A derivation that returns a tag returns one of the length asked for.
pub proof fn lemma_outcome_length(
    params: Argon2,
    password: Seq<u8>,
    salt: Seq<u8>,
    secret: Seq<u8>,
    associated_data: Seq<u8>,
    r: Result<Vec<u8>, Error>,
)
    requires
        outcome(params, password, salt, secret, associated_data, r),
    ensures
        r is Ok ==> r->Ok_0@.len() == params.hash_length,
{
    if r is Ok {
        lemma_tag_length(params, password, salt, secret, associated_data);
    }
}

/// Refusals. A derivation whose memory cost is below 8 KiB per lane, one
/// without lanes and one for a tag of no bytes fail with a parameter error.
/// A short salt is never the reason for a failure, and no failure is an
/// internal one. Where every bound holds the only failure possible is that
/// of the allocator.
pub proof fn lemma_refusals(
    params: Argon2,
    password: Seq<u8>,
    salt: Seq<u8>,
    secret: Seq<u8>,
    associated_data: Seq<u8>,
    r: Result<Vec<u8>, Error>,
)
    requires
        outcome(params, password, salt, secret, associated_data, r),
    ensures
        params.m_cost < 8 * params.p_cost ==> r is Err && r->Err_0.spec_kind()
            == ErrorKind::Parameter,
        params.p_cost == 0 ==> r is Err && r->Err_0.spec_kind() == ErrorKind::Parameter,
        params.hash_length == 0 ==> r == Err::<Vec<u8>, Error>(Error::OutputTooShort),
        r is Err ==> r->Err_0 != Error::SaltTooShort,
        r is Err ==> r->Err_0.spec_kind() != ErrorKind::Internal,
        params.valid(lengths_of(password, salt, secret, associated_data)) ==> r is Ok || r
            == Err::<Vec<u8>, Error>(Error::Allocation),
        r is Ok ==> params.valid(lengths_of(password, salt, secret, associated_data)),
{
    lemma_no_violation_iff_valid(
        params,
        lengths_of(password, salt, secret, associated_data),
        SaltPolicy::Any,
    );
}

} // verus!
