//! Cost parameters, algorithm variants and versions.

use vstd::prelude::*;

verus! {

/// Tag length, in bytes, used by [`Argon2::new`] and by every preset.
pub const RECOMMENDED_HASH_LENGTH: u64 = 64;

/// Variant of the algorithm: how the reference block of each step is addressed.
#[derive(Copy, Clone, Debug, PartialEq, Eq, Structural, PartialOrd, Ord)]
pub enum Algorithm {
    /// Data-dependent addressing: strongest against time-memory trade-offs,
    /// open to side channels.
    Argon2d,
    /// Data-independent addressing: resists side channels, weaker against
    /// trade-offs.
    Argon2i,
    /// Data-independent addressing for the first half of the first pass,
    /// data-dependent afterwards (the default).
    Argon2id,
}

impl Algorithm {
    /// The number that identifies the variant inside the hashed inputs.
    pub open spec fn spec_code(self) -> u32 {
        match self {
            Algorithm::Argon2d => 0,
            Algorithm::Argon2i => 1,
            Algorithm::Argon2id => 2,
        }
    }

    /// The number that identifies the variant inside the hashed inputs.
    #[verifier::when_used_as_spec(spec_code)]
    pub fn code(self) -> (r: u32)
        ensures
            r == self.spec_code(),
    {
        match self {
            Algorithm::Argon2d => 0,
            Algorithm::Argon2i => 1,
            Algorithm::Argon2id => 2,
        }
    }
}

impl Default for Algorithm {
    fn default() -> (r: Self)
        ensures
            r == Algorithm::Argon2id,
    {
        Algorithm::Argon2id
    }
}

/// Version of the algorithm.
#[derive(Copy, Clone, Debug, PartialEq, Eq, Structural, PartialOrd, Ord)]
pub enum Version {
    /// Version 16 (0x10): a later pass overwrites the blocks of the earlier one.
    V0x10,
    /// Version 19 (0x13, the default): a later pass XORs onto the earlier one.
    V0x13,
}

impl Version {
    /// The version number as it enters the hashed inputs.
    pub open spec fn spec_code(self) -> u32 {
        match self {
            Version::V0x10 => 0x10,
            Version::V0x13 => 0x13,
        }
    }

    /// The version number as it enters the hashed inputs.
    #[verifier::when_used_as_spec(spec_code)]
    pub fn code(self) -> (r: u32)
        ensures
            r == self.spec_code(),
    {
        match self {
            Version::V0x10 => 0x10,
            Version::V0x13 => 0x13,
        }
    }
}

impl Default for Version {
    fn default() -> (r: Self)
        ensures
            r == Version::V0x13,
    {
        Version::V0x13
    }
}

/// Argon2 instance: the cost parameters of a derivation.
///
/// - `m_cost`: memory cost in kibibytes
/// - `t_cost`: number of passes over the memory
/// - `p_cost`: number of lanes
/// - `hash_length`: length of the tag in bytes
/// - `algorithm`: variant of the algorithm
/// - `version`: version of the algorithm
#[derive(Clone, Debug)]
pub struct Argon2 {
    pub m_cost: u32,
    pub t_cost: u32,
    pub p_cost: u32,
    pub hash_length: u64,
    pub algorithm: Algorithm,
    pub version: Version,
}

impl Default for Argon2 {
    fn default() -> (r: Self)
        ensures
            r == (Argon2 {
                m_cost: 0,
                t_cost: 0,
                p_cost: 0,
                hash_length: 0,
                algorithm: Algorithm::Argon2id,
                version: Version::V0x13,
            }),
    {
        Argon2 {
            m_cost: 0,
            t_cost: 0,
            p_cost: 0,
            hash_length: 0,
            algorithm: Algorithm::Argon2id,
            version: Version::V0x13,
        }
    }
}

impl Argon2 {
    /// The instance that [`Argon2::new`] and the presets build: the given
    /// costs, the recommended tag length, Argon2id, version 0x13.
    pub open spec fn with_costs(m_cost: u32, t_cost: u32, p_cost: u32) -> Argon2 {
        Argon2 {
            m_cost,
            t_cost,
            p_cost,
            hash_length: RECOMMENDED_HASH_LENGTH,
            algorithm: Algorithm::Argon2id,
            version: Version::V0x13,
        }
    }

    /// Creates an instance with the given costs, a 64-byte tag, Argon2id and
    /// version 0x13.
    pub fn new(m_cost: u32, t_cost: u32, p_cost: u32) -> (r: Self)
        ensures
            r == Argon2::with_costs(m_cost, t_cost, p_cost),
    {
        Argon2 {
            m_cost,
            t_cost,
            p_cost,
            hash_length: RECOMMENDED_HASH_LENGTH,
            algorithm: Algorithm::Argon2id,
            version: Version::V0x13,
        }
    }

    /// Replaces the variant and keeps everything else.
    pub fn with_algorithm(self, algorithm: Algorithm) -> (r: Self)
        ensures
            r == (Argon2 { algorithm, ..self }),
    {
        let mut r = self;
        r.algorithm = algorithm;
        r
    }

    /// Replaces the version and keeps everything else.
    pub fn with_version(self, version: Version) -> (r: Self)
        ensures
            r == (Argon2 { version, ..self }),
    {
        let mut r = self;
        r.version = version;
        r
    }

    /// Replaces the tag length and keeps everything else.
    pub fn with_hash_length(self, hash_length: u64) -> (r: Self)
        ensures
            r == (Argon2 { hash_length, ..self }),
    {
        let mut r = self;
        r.hash_length = hash_length;
        r
    }

    /// 128 000 KiB, 8 passes, 1 lane.
    pub fn very_fast() -> (r: Self)
        ensures
            r == Argon2::with_costs(128_000, 8, 1),
    {
        Argon2::new(128_000, 8, 1)
    }

    /// 256 000 KiB, 16 passes, 1 lane.
    pub fn fast() -> (r: Self)
        ensures
            r == Argon2::with_costs(256_000, 16, 1),
    {
        Argon2::new(256_000, 16, 1)
    }

    /// 1 024 000 KiB, 8 passes, 1 lane.
    pub fn balanced() -> (r: Self)
        ensures
            r == Argon2::with_costs(1024_000, 8, 1),
    {
        Argon2::new(1024_000, 8, 1)
    }

    /// 2 048 000 KiB, 8 passes, 1 lane.
    pub fn slow() -> (r: Self)
        ensures
            r == Argon2::with_costs(2048_000, 8, 1),
    {
        Argon2::new(2048_000, 8, 1)
    }

    /// 3 072 000 KiB, 8 passes, 1 lane.
    pub fn very_slow() -> (r: Self)
        ensures
            r == Argon2::with_costs(3072_000, 8, 1),
    {
        Argon2::new(3072_000, 8, 1)
    }
}

} // verus!
