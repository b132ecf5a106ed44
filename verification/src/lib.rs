//! Argon2 password-based key derivation with machine-checked contracts.
//!
//! The crate derives fixed-length tags from a password and a salt with the
//! memory-hard function Argon2 in its three variants and two versions. Every
//! executable function carries a contract that Verus proves: the tag equals
//! the mathematical definition in [`derive::tag`], no arithmetic overflows
//! and no index leaves its buffer.

pub mod blake2b;
pub mod block;
pub mod bytes;
pub mod derive;
pub mod error;
pub mod fill;
pub mod geometry;
pub mod hlong;
pub mod index;
pub mod laws;
pub mod lifecycle;
pub mod params;
pub mod schedule;
mod scrub;
pub mod validate;

pub use error::{Error, ErrorKind};
pub use params::{Algorithm, Argon2, Version, RECOMMENDED_HASH_LENGTH};
pub use validate::{InputLengths, SaltPolicy};
