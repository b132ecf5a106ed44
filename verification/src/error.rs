//! Why a derivation is refused or fails.

use vstd::prelude::*;

verus! {

/// The three classes of failure.
#[derive(Copy, Clone, Debug, PartialEq, Eq, Structural)]
pub enum ErrorKind {
    /// A parameter or an input length is out of range. Found before any
    /// memory is asked for; the caller mends the parameters.
    Parameter,
    /// The working memory could not be had. The caller may try again with a
    /// lower memory cost.
    Allocation,
    /// A failure that correct parameters and enough memory do not explain.
    Internal,
}

/// A failed derivation. No error comes with a partial tag.
#[derive(Copy, Clone, Debug, PartialEq, Eq, Structural)]
pub enum Error {
    /// The tag would be shorter than 4 bytes.
    OutputTooShort,
    /// The tag would be longer than 2^32 - 1 bytes.
    OutputTooLong,
    /// The password is longer than 2^32 - 1 bytes.
    PasswordTooLong,
    /// The salt is shorter than the policy in force asks.
    SaltTooShort,
    /// The salt is longer than 2^32 - 1 bytes.
    SaltTooLong,
    /// The secret key is longer than 2^32 - 1 bytes.
    SecretTooLong,
    /// The associated data is longer than 2^32 - 1 bytes.
    AdTooLong,
    /// Fewer than 8 KiB of memory for each lane.
    MemoryTooLittle,
    /// More memory than the machine can address.
    MemoryTooMuch,
    /// No pass at all.
    TimeTooSmall,
    /// No lane at all.
    LanesTooFew,
    /// More than 2^24 - 1 lanes.
    LanesTooMany,
    /// The working memory could not be had.
    Allocation,
    /// Any other failure, with the code of the native library where it has
    /// one.
    Internal(i32),
}

impl Error {
    /// The class of the error.
    pub open spec fn spec_kind(self) -> ErrorKind {
        match self {
            Error::Allocation => ErrorKind::Allocation,
            Error::Internal(_) => ErrorKind::Internal,
            _ => ErrorKind::Parameter,
        }
    }

    /// The class of the error.
    #[verifier::when_used_as_spec(spec_kind)]
    pub fn kind(self) -> (k: ErrorKind)
        ensures
            k == self.spec_kind(),
    {
        match self {
            Error::Allocation => ErrorKind::Allocation,
            Error::Internal(_) => ErrorKind::Internal,
            _ => ErrorKind::Parameter,
        }
    }

    /// The error that a status code of the native Argon2 library stands for.
    /// Codes that name none of the errors above, zero among them, are kept
    /// as they are inside [`Error::Internal`].
    pub open spec fn spec_from_code(code: i32) -> Error {
        if code == -2 {
            Error::OutputTooShort
        } else if code == -3 {
            Error::OutputTooLong
        } else if code == -5 {
            Error::PasswordTooLong
        } else if code == -6 {
            Error::SaltTooShort
        } else if code == -7 {
            Error::SaltTooLong
        } else if code == -9 {
            Error::AdTooLong
        } else if code == -11 {
            Error::SecretTooLong
        } else if code == -12 {
            Error::TimeTooSmall
        } else if code == -14 {
            Error::MemoryTooLittle
        } else if code == -15 {
            Error::MemoryTooMuch
        } else if code == -16 {
            Error::LanesTooFew
        } else if code == -17 {
            Error::LanesTooMany
        } else if code == -22 {
            Error::Allocation
        } else {
            Error::Internal(code)
        }
    }

    /// Maps a status code of the native Argon2 library to its error.
    #[verifier::when_used_as_spec(spec_from_code)]
    pub fn from_code(code: i32) -> (e: Error)
        ensures
            e == Error::spec_from_code(code),
    {
        if code == -2 {
            Error::OutputTooShort
        } else if code == -3 {
            Error::OutputTooLong
        } else if code == -5 {
            Error::PasswordTooLong
        } else if code == -6 {
            Error::SaltTooShort
        } else if code == -7 {
            Error::SaltTooLong
        } else if code == -9 {
            Error::AdTooLong
        } else if code == -11 {
            Error::SecretTooLong
        } else if code == -12 {
            Error::TimeTooSmall
        } else if code == -14 {
            Error::MemoryTooLittle
        } else if code == -15 {
            Error::MemoryTooMuch
        } else if code == -16 {
            Error::LanesTooFew
        } else if code == -17 {
            Error::LanesTooMany
        } else if code == -22 {
            Error::Allocation
        } else {
            Error::Internal(code)
        }
    }

    /// The status code of the native Argon2 library for this error.
    pub open spec fn spec_code(self) -> i32 {
        match self {
            Error::OutputTooShort => -2i32,
            Error::OutputTooLong => -3i32,
            Error::PasswordTooLong => -5i32,
            Error::SaltTooShort => -6i32,
            Error::SaltTooLong => -7i32,
            Error::AdTooLong => -9i32,
            Error::SecretTooLong => -11i32,
            Error::TimeTooSmall => -12i32,
            Error::MemoryTooLittle => -14i32,
            Error::MemoryTooMuch => -15i32,
            Error::LanesTooFew => -16i32,
            Error::LanesTooMany => -17i32,
            Error::Allocation => -22i32,
            Error::Internal(code) => code,
        }
    }

    /// The status code of the native Argon2 library for this error.
    #[verifier::when_used_as_spec(spec_code)]
    pub fn code(self) -> (c: i32)
        ensures
            c == self.spec_code(),
    {
        match self {
            Error::OutputTooShort => -2,
            Error::OutputTooLong => -3,
            Error::PasswordTooLong => -5,
            Error::SaltTooShort => -6,
            Error::SaltTooLong => -7,
            Error::AdTooLong => -9,
            Error::SecretTooLong => -11,
            Error::TimeTooSmall => -12,
            Error::MemoryTooLittle => -14,
            Error::MemoryTooMuch => -15,
            Error::LanesTooFew => -16,
            Error::LanesTooMany => -17,
            Error::Allocation => -22,
            Error::Internal(code) => code,
        }
    }
}

/// Mapping a code to its error and reading the code of the result gives the
/// code back: no status of the native library is lost.
pub proof fn lemma_code_round_trip(code: i32)
    ensures
        Error::spec_from_code(code).spec_code() == code,
{
}

} // verus!
