//! The bounds that parameters and input lengths must keep, checked before
//! any memory is asked for.

use crate::error::Error;
use crate::params::Argon2;
use vstd::prelude::*;

verus! {

/// Shortest tag, in bytes.
pub const MIN_OUTPUT_LENGTH: u64 = 4;

/// Longest tag, password, salt, secret key or associated data, in bytes.
pub const MAX_LENGTH: u64 = 0xffff_ffff;

/// Largest number of lanes.
pub const MAX_LANES: u32 = 0xff_ffff;

/// Blocks of memory that each lane needs at least: two for each of its
/// four segments.
pub const MIN_BLOCKS_PER_LANE: u64 = 8;

/// Length below which [`SaltPolicy::Recommended`] refuses a salt.
pub const RECOMMENDED_SALT_LENGTH: usize = 8;

/// What to make of a short salt. The algorithm takes a salt of any length;
/// whether one of fewer than 8 bytes is an error is for the caller to say.
#[derive(Copy, Clone, Debug, PartialEq, Eq, Structural)]
pub enum SaltPolicy {
    /// Any salt up to the hard maximum passes.
    Any,
    /// A salt of fewer than 8 bytes is refused.
    Recommended,
}

impl SaltPolicy {
    /// The shortest salt that the policy lets pass.
    pub open spec fn spec_min_length(self) -> usize {
        match self {
            SaltPolicy::Any => 0,
            SaltPolicy::Recommended => RECOMMENDED_SALT_LENGTH,
        }
    }

    /// The shortest salt that the policy lets pass.
    #[verifier::when_used_as_spec(spec_min_length)]
    pub fn min_length(self) -> (n: usize)
        ensures
            n == self.spec_min_length(),
    {
        match self {
            SaltPolicy::Any => 0,
            SaltPolicy::Recommended => RECOMMENDED_SALT_LENGTH,
        }
    }
}

/// The lengths of the four byte strings that enter a derivation.
#[derive(Copy, Clone, Debug, PartialEq, Eq, Structural)]
pub struct InputLengths {
    pub password: usize,
    pub salt: usize,
    pub secret: usize,
    pub associated_data: usize,
}

impl Argon2 {
    /// Every bound holds: the tag has 4 to 2^32 - 1 bytes, no input is
    /// longer than 2^32 - 1 bytes, there is at least one pass, there are 1
    /// to 2^24 - 1 lanes, and the memory cost is at least 8 KiB per lane.
    pub open spec fn valid(self, lengths: InputLengths) -> bool {
        &&& MIN_OUTPUT_LENGTH <= self.hash_length <= MAX_LENGTH
        &&& lengths.password <= MAX_LENGTH
        &&& lengths.salt <= MAX_LENGTH
        &&& lengths.secret <= MAX_LENGTH
        &&& lengths.associated_data <= MAX_LENGTH
        &&& self.m_cost >= MIN_BLOCKS_PER_LANE * self.p_cost
        &&& self.t_cost >= 1
        &&& 1 <= self.p_cost <= MAX_LANES
    }

    /// The first bound that fails, in the fixed order in which they are
    /// examined: tag length, password, salt, secret key, associated data,
    /// memory, passes, lanes.
    pub open spec fn first_violation(self, lengths: InputLengths, policy: SaltPolicy) -> Option<
        Error,
    > {
        if self.hash_length < MIN_OUTPUT_LENGTH {
            Some(Error::OutputTooShort)
        } else if self.hash_length > MAX_LENGTH {
            Some(Error::OutputTooLong)
        } else if lengths.password > MAX_LENGTH {
            Some(Error::PasswordTooLong)
        } else if lengths.salt < policy.spec_min_length() {
            Some(Error::SaltTooShort)
        } else if lengths.salt > MAX_LENGTH {
            Some(Error::SaltTooLong)
        } else if lengths.secret > MAX_LENGTH {
            Some(Error::SecretTooLong)
        } else if lengths.associated_data > MAX_LENGTH {
            Some(Error::AdTooLong)
        } else if self.m_cost < MIN_BLOCKS_PER_LANE * self.p_cost || self.m_cost
            < MIN_BLOCKS_PER_LANE {
            Some(Error::MemoryTooLittle)
        } else if self.t_cost < 1 {
            Some(Error::TimeTooSmall)
        } else if self.p_cost < 1 {
            Some(Error::LanesTooFew)
        } else if self.p_cost > MAX_LANES {
            Some(Error::LanesTooMany)
        } else {
            None
        }
    }

    /// Checks every bound. Returns the first that fails, and `Ok` exactly
    /// when none does.
    pub fn validate(&self, lengths: InputLengths, policy: SaltPolicy) -> (r: Result<(), Error>)
        ensures
            match self.first_violation(lengths, policy) {
                Some(e) => r == Err::<(), Error>(e),
                None => r == Ok::<(), Error>(()),
            },
    {
        if self.hash_length < MIN_OUTPUT_LENGTH {
            return Err(Error::OutputTooShort);
        }
        if self.hash_length > MAX_LENGTH {
            return Err(Error::OutputTooLong);
        }
        if lengths.password as u64 > MAX_LENGTH {
            return Err(Error::PasswordTooLong);
        }
        if lengths.salt < policy.min_length() {
            return Err(Error::SaltTooShort);
        }
        if lengths.salt as u64 > MAX_LENGTH {
            return Err(Error::SaltTooLong);
        }
        if lengths.secret as u64 > MAX_LENGTH {
            return Err(Error::SecretTooLong);
        }
        if lengths.associated_data as u64 > MAX_LENGTH {
            return Err(Error::AdTooLong);
        }
        if (self.m_cost as u64) < MIN_BLOCKS_PER_LANE * (self.p_cost as u64) || (self.m_cost as u64)
            < MIN_BLOCKS_PER_LANE {
            return Err(Error::MemoryTooLittle);
        }
        if self.t_cost < 1 {
            return Err(Error::TimeTooSmall);
        }
        if self.p_cost < 1 {
            return Err(Error::LanesTooFew);
        }
        if self.p_cost > MAX_LANES {
            return Err(Error::LanesTooMany);
        }
        Ok(())
    }
}

/// No bound fails exactly when every bound holds and the salt is as long as
/// the policy asks.
pub proof fn lemma_no_violation_iff_valid(params: Argon2, lengths: InputLengths, policy: SaltPolicy)
    ensures
        params.first_violation(lengths, policy) is None <==> params.valid(lengths) && lengths.salt
            >= policy.spec_min_length(),
{
}

/// Whatever else holds, a memory cost below 8 KiB per lane, a derivation
/// without lanes and a tag of no bytes are refused; a salt of fewer than 8
/// bytes is refused under [`SaltPolicy::Recommended`] and is no ground for
/// refusal under [`SaltPolicy::Any`].
pub proof fn lemma_validation_boundaries(params: Argon2, lengths: InputLengths, policy: SaltPolicy)
    ensures
        params.m_cost < 8 * params.p_cost ==> params.first_violation(lengths, policy) is Some,
        params.p_cost == 0 ==> params.first_violation(lengths, policy) is Some,
        params.hash_length == 0 ==> params.first_violation(lengths, policy) is Some,
        lengths.salt < 8 ==> params.first_violation(lengths, SaltPolicy::Recommended) is Some,
        params.valid(lengths) ==> params.first_violation(lengths, SaltPolicy::Any) is None,
        params.first_violation(lengths, SaltPolicy::Any) != Some(Error::SaltTooShort),
{
}

} // verus!
