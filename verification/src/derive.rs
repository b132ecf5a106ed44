//! The derivation: initial hash, seeding of the lanes, filling, and the
//! final tag.

use crate::blake2b::{digest, hash};
use crate::block::{block_at, write_block, xor};
use crate::bytes::{
    bytes_words, le32, push_bytes, push_le32, read_words, words_bytes, write_bytes,
};
use crate::error::Error;
use crate::fill::{fill, fill_in_place};
use crate::geometry::{lemma_block_in_memory, lemma_lane_length_bound, Geometry};
use crate::hlong::{lemma_digest_len, lemma_long_digest_len, long_digest, long_hash};
use crate::lifecycle::lemma_memory_content_is_immaterial;
use crate::params::Argon2;
use crate::scrub::{scrub_bytes, scrub_words};
use crate::validate::{lemma_no_violation_iff_valid, InputLengths, SaltPolicy};
use vstd::prelude::*;
use vstd::string::StringSliceAdditionalSpecFns;

verus! {

/// Bytes of the initial hash.
pub const INITIAL_HASH_LENGTH: usize = 64;

/// Bytes in one block of the memory.
pub const BLOCK_BYTES: u32 = 1024;

/// The bytes of an input that may be absent; an absent input counts as an
/// empty one.
pub open spec fn optional_bytes(input: Option<&[u8]>) -> Seq<u8> {
    match input {
        Some(bytes) => bytes@,
        None => Seq::<u8>::empty(),
    }
}

/// The lengths of the four inputs.
pub open spec fn lengths_of(
    password: Seq<u8>,
    salt: Seq<u8>,
    secret: Seq<u8>,
    associated_data: Seq<u8>,
) -> InputLengths {
    InputLengths {
        password: password.len() as usize,
        salt: salt.len() as usize,
        secret: secret.len() as usize,
        associated_data: associated_data.len() as usize,
    }
}

/// What the initial hash is taken of: lanes, tag length, memory cost,
/// passes, version and variant, four bytes each, then the password, the
/// salt, the secret key and the associated data, each behind its length.
pub open spec fn initial_hash_input(
    params: Argon2,
    password: Seq<u8>,
    salt: Seq<u8>,
    secret: Seq<u8>,
    associated_data: Seq<u8>,
) -> Seq<u8> {
    le32(params.p_cost) + le32(params.hash_length as u32) + le32(params.m_cost) + le32(
        params.t_cost,
    ) + le32(params.version.spec_code()) + le32(params.algorithm.spec_code()) + le32(
        password.len() as u32,
    ) + password + le32(salt.len() as u32) + salt + le32(secret.len() as u32) + secret + le32(
        associated_data.len() as u32,
    ) + associated_data
}

/// The 64-byte hash of all parameters and inputs, from which every lane is
/// seeded.
pub open spec fn initial_hash(
    params: Argon2,
    password: Seq<u8>,
    salt: Seq<u8>,
    secret: Seq<u8>,
    associated_data: Seq<u8>,
) -> Seq<u8> {
    digest(initial_hash_input(params, password, salt, secret, associated_data), 64)
}

/// The seeded block in column `column` (0 or 1) of lane `lane`: the
/// variable-length hash, 1024 bytes long, of the initial hash followed by
/// the column and the lane.
pub open spec fn seed_block(h0: Seq<u8>, lane: int, column: int) -> Seq<u64> {
    bytes_words(long_digest(h0 + le32(column as u32) + le32(lane as u32), BLOCK_BYTES))
}

/// The memory with the first two blocks of the first `lanes` lanes seeded.
pub open spec fn seed_lanes(g: Geometry, mem: Seq<u64>, h0: Seq<u8>, lanes: int) -> Seq<u64>
    decreases lanes,
{
    if lanes <= 0 {
        mem
    } else {
        let lane = lanes - 1;
        write_block(
            write_block(
                seed_lanes(g, mem, h0, lanes - 1),
                g.block_index(lane, 0),
                seed_block(h0, lane, 0),
            ),
            g.block_index(lane, 1),
            seed_block(h0, lane, 1),
        )
    }
}

/// A memory of zeros.
pub open spec fn zero_memory(g: Geometry) -> Seq<u64> {
    Seq::new(g.words() as nat, |k: int| 0u64)
}

/// The XOR of the last blocks of the first `lanes` lanes.
pub open spec fn final_block(g: Geometry, mem: Seq<u64>, lanes: int) -> Seq<u64>
    decreases lanes,
{
    if lanes <= 1 {
        block_at(mem, g.block_index(0, g.lane_length - 1))
    } else {
        xor(
            final_block(g, mem, lanes - 1),
            block_at(mem, g.block_index(lanes - 1, g.lane_length - 1)),
        )
    }
}

/// The Argon2 tag of the inputs under the parameters: the variable-length
/// hash of the XOR of the last blocks of all lanes, after the memory has
/// been seeded from the initial hash and filled in all passes.
pub open spec fn tag(
    params: Argon2,
    password: Seq<u8>,
    salt: Seq<u8>,
    secret: Seq<u8>,
    associated_data: Seq<u8>,
) -> Seq<u8> {
    let g = Geometry::spec_of(params);
    let h0 = initial_hash(params, password, salt, secret, associated_data);
    let mem = fill(g, seed_lanes(g, zero_memory(g), h0, g.lanes as int));
    long_digest(words_bytes(final_block(g, mem, g.lanes as int)), params.hash_length as u32)
}

/// What a derivation may return. Where a bound fails, the first such
/// failure, whatever the machine. Where none fails, the tag; or
/// [`Error::Allocation`], where the machine did not give the memory.
pub open spec fn outcome(
    params: Argon2,
    password: Seq<u8>,
    salt: Seq<u8>,
    secret: Seq<u8>,
    associated_data: Seq<u8>,
    r: Result<Vec<u8>, Error>,
) -> bool {
    match params.first_violation(
        lengths_of(password, salt, secret, associated_data),
        SaltPolicy::Any,
    ) {
        Some(e) => r == Err::<Vec<u8>, Error>(e),
        None => match r {
            Ok(t) => t@ == tag(params, password, salt, secret, associated_data),
            Err(e) => e == Error::Allocation,
        },
    }
}

/// Asks for a memory of `words` zero words. `None` where the allocator
/// refuses.
fn acquire(words: usize) -> (r: Option<Vec<u64>>)
    ensures
        r matches Some(v) ==> v@ == Seq::new(words as nat, |k: int| 0u64),
{
    let mut v: Vec<u64> = Vec::new();
    let reserved = v.try_reserve(words);
    memory_if_reserved(v, reserved, words)
}

/// The working memory once the allocator has answered a request to reserve
/// `words` words for `buffer`. Where the reservation succeeded, the buffer
/// filled with `words` zero words, whatever it held; where it failed,
/// nothing.
pub fn memory_if_reserved(
    buffer: Vec<u64>,
    reserved: Result<(), std::collections::TryReserveError>,
    words: usize,
) -> (r: Option<Vec<u64>>)
    ensures
        reserved is Ok ==> r is Some && r->Some_0@ == Seq::new(words as nat, |k: int| 0u64),
        reserved is Err ==> r is None,
{
    match reserved {
        Ok(_) => {
            let mut v = buffer;
            v.clear();
            v.resize(words, 0u64);
            assert(v@ =~= Seq::new(words as nat, |k: int| 0u64));
            Some(v)
        },
        Err(_) => None,
    }
}

/// Replaces block `i` of the memory by the 128 words of `b`.
fn store_block(mem: &mut Vec<u64>, i: usize, b: &Vec<u64>)
    requires
        b@.len() == 128,
        128 * i + 128 <= old(mem)@.len(),
    ensures
        final(mem)@ == write_block(old(mem)@, i as int, b@),
{
    let ghost len = mem@.len();
    assert(len <= usize::MAX) by {
        let l = mem.len();
    }
    let mut k: usize = 0;
    while k < 128
        invariant
            k <= 128,
            b@.len() == 128,
            128 * i + 128 <= len <= usize::MAX,
            mem@.len() == len,
            len == old(mem)@.len(),
            forall|n: int| 0 <= n < len && !(128 * i <= n < 128 * i + k) ==> mem@[n] == old(mem)@[n],
            forall|n: int| 128 * i <= n < 128 * i + k ==> mem@[n] == b@[n - 128 * i],
        decreases 128 - k,
    {
        mem[128 * i + k] = b[k];
        k = k + 1;
    }
    assert(mem@ =~= write_block(old(mem)@, i as int, b@));
}

/// Hashes parameters and inputs to the 64 bytes that seed every lane.
fn initial_hash_of(
    params: &Argon2,
    password: &[u8],
    salt: &[u8],
    secret: &[u8],
    associated_data: &[u8],
) -> (h0: Vec<u8>)
    requires
        params.valid(lengths_of(password@, salt@, secret@, associated_data@)),
    ensures
        h0@ == initial_hash(*params, password@, salt@, secret@, associated_data@),
        h0@.len() == 64,
{
    let mut input: Vec<u8> = Vec::new();
    push_le32(&mut input, params.p_cost);
    push_le32(&mut input, params.hash_length as u32);
    push_le32(&mut input, params.m_cost);
    push_le32(&mut input, params.t_cost);
    push_le32(&mut input, params.version.code());
    push_le32(&mut input, params.algorithm.code());
    push_le32(&mut input, password.len() as u32);
    push_bytes(&mut input, password, password.len());
    push_le32(&mut input, salt.len() as u32);
    push_bytes(&mut input, salt, salt.len());
    push_le32(&mut input, secret.len() as u32);
    push_bytes(&mut input, secret, secret.len());
    push_le32(&mut input, associated_data.len() as u32);
    push_bytes(&mut input, associated_data, associated_data.len());
    assert(input@ =~= initial_hash_input(
        *params,
        password@,
        salt@,
        secret@,
        associated_data@,
    ));
    let h0 = hash(input.as_slice(), INITIAL_HASH_LENGTH);
    proof {
        lemma_digest_len(input@, 64);
    }
    scrub_bytes(&mut input);
    h0
}

/// Computes the seeded block in column `column` of lane `lane`.
fn seed_block_of(h0: &Vec<u8>, lane: u32, column: u32) -> (b: Vec<u64>)
    ensures
        b@ == seed_block(h0@, lane as int, column as int),
        b@.len() == 128,
{
    let mut input: Vec<u8> = Vec::new();
    push_bytes(&mut input, h0.as_slice(), h0.len());
    push_le32(&mut input, column);
    push_le32(&mut input, lane);
    assert(input@ =~= h0@ + le32(column) + le32(lane));
    let mut bytes = long_hash(input.as_slice(), BLOCK_BYTES);
    proof {
        lemma_long_digest_len(input@, BLOCK_BYTES);
    }
    let b = read_words(bytes.as_slice());
    scrub_bytes(&mut input);
    scrub_bytes(&mut bytes);
    b
}

/// Seeds the first two blocks of every lane.
fn seed_in_place(g: &Geometry, mem: &mut Vec<u64>, h0: &Vec<u8>)
    requires
        g.wf(),
        old(mem)@.len() == g.words(),
    ensures
        final(mem)@ == seed_lanes(*g, old(mem)@, h0@, g.lanes as int),
        final(mem)@.len() == g.words(),
{
    proof {
        lemma_lane_length_bound(*g);
    }
    let mut lane: usize = 0;
    while lane < g.lanes
        invariant
            g.wf(),
            lane <= g.lanes,
            8 <= g.lane_length,
            mem@.len() == g.words(),
            mem@ == seed_lanes(*g, old(mem)@, h0@, lane as int),
        decreases g.lanes - lane,
    {
        proof {
            lemma_block_in_memory(*g, lane as int, 0);
            lemma_block_in_memory(*g, lane as int, 1);
        }
        let first: usize = lane * g.lane_length;
        let b0 = seed_block_of(h0, lane as u32, 0);
        store_block(mem, first, &b0);
        let b1 = seed_block_of(h0, lane as u32, 1);
        store_block(mem, first + 1, &b1);
        lane = lane + 1;
    }
}

/// XORs the last blocks of all lanes.
fn final_block_of(g: &Geometry, mem: &Vec<u64>) -> (b: [u64; 128])
    requires
        g.wf(),
        mem@.len() == g.words(),
    ensures
        b@ == final_block(*g, mem@, g.lanes as int),
{
    proof {
        lemma_lane_length_bound(*g);
        lemma_block_in_memory(*g, 0, g.lane_length - 1);
    }
    let words: usize = mem.len();
    let last: usize = g.lane_length - 1;
    let mut acc: [u64; 128] = [0;128];
    let mut k: usize = 0;
    while k < 128
        invariant
            k <= 128,
            128 * last + 128 <= mem@.len() <= usize::MAX,
            forall|n: int| 0 <= n < k ==> acc@[n] == mem@[128 * last + n],
        decreases 128 - k,
    {
        acc[k] = mem[128 * last + k];
        k = k + 1;
    }
    assert(acc@ =~= block_at(mem@, g.block_index(0, g.lane_length - 1)));
    let mut lane: usize = 1;
    while lane < g.lanes
        invariant
            g.wf(),
            1 <= lane <= g.lanes,
            8 <= g.lane_length,
            last == g.lane_length - 1,
            mem@.len() == g.words(),
            mem@.len() <= usize::MAX,
            acc@ == final_block(*g, mem@, lane as int),
        decreases g.lanes - lane,
    {
        proof {
            lemma_block_in_memory(*g, lane as int, last as int);
        }
        let i: usize = lane * g.lane_length + last;
        let ghost before = acc@;
        let mut k: usize = 0;
        while k < 128
            invariant
                k <= 128,
                before.len() == 128,
                128 * i + 128 <= mem@.len() <= usize::MAX,
                forall|n: int| 0 <= n < k ==> acc@[n] == before[n] ^ mem@[128 * i + n],
                forall|n: int| k <= n < 128 ==> acc@[n] == before[n],
            decreases 128 - k,
        {
            acc[k] = acc[k] ^ mem[128 * i + k];
            k = k + 1;
        }
        assert(acc@ =~= xor(before, block_at(mem@, i as int)));
        lane = lane + 1;
    }
    acc
}

impl Argon2 {
    /// Derives the tag in a memory that the caller has acquired: as many
    /// words as the parameters ask for, whatever they hold. The memory is
    /// scrubbed and handed back empty.
    pub fn derive_in(
        &self,
        password: &[u8],
        salt: &[u8],
        secret: &[u8],
        associated_data: &[u8],
        memory: &mut Vec<u64>,
    ) -> (t: Vec<u8>)
        requires
            self.valid(lengths_of(password@, salt@, secret@, associated_data@)),
            old(memory)@.len() == Geometry::spec_of(*self).words(),
        ensures
            t@ == tag(*self, password@, salt@, secret@, associated_data@),
            t@.len() == self.hash_length,
            final(memory)@.len() == 0,
    {
        let g = Geometry::of(self);
        let mut h0 = initial_hash_of(self, password, salt, secret, associated_data);
        seed_in_place(&g, memory, &h0);
        fill_in_place(&g, memory);
        proof {
            lemma_memory_content_is_immaterial(g, old(memory)@, zero_memory(g), h0@);
        }
        let last = final_block_of(&g, memory);
        let mut bytes = write_bytes(&last, 1024);
        assert(bytes@ =~= words_bytes(last@));
        let t = long_hash(bytes.as_slice(), self.hash_length as u32);
        proof {
            lemma_long_digest_len(bytes@, self.hash_length as u32);
        }
        scrub_bytes(&mut h0);
        scrub_bytes(&mut bytes);
        scrub_words(memory);
        t
    }

    /// Derives the tag of `password` and `salt`, with an optional secret
    /// key and optional associated data.
    ///
    /// Checks all bounds first and returns the first that fails; a salt of
    /// fewer than 8 bytes is accepted. Then asks for the memory. Returns the
    /// tag, `hash_length` bytes long, unless the memory could not be had.
    pub fn derive(
        &self,
        password: &[u8],
        salt: &[u8],
        secret: Option<&[u8]>,
        associated_data: Option<&[u8]>,
    ) -> (r: Result<Vec<u8>, Error>)
        ensures
            outcome(
                *self,
                password@,
                salt@,
                optional_bytes(secret),
                optional_bytes(associated_data),
                r,
            ),
            r matches Ok(t) ==> t@.len() == self.hash_length,
    {
        let empty: [u8; 0] = [];
        let secret: &[u8] = match secret {
            Some(bytes) => bytes,
            None => empty.as_slice(),
        };
        let associated_data: &[u8] = match associated_data {
            Some(bytes) => bytes,
            None => empty.as_slice(),
        };
        let lengths = InputLengths {
            password: password.len(),
            salt: salt.len(),
            secret: secret.len(),
            associated_data: associated_data.len(),
        };
        proof {
            lemma_no_violation_iff_valid(*self, lengths, SaltPolicy::Any);
        }
        match self.validate(lengths, SaltPolicy::Any) {
            Err(e) => {
                return Err(e);
            },
            Ok(_) => {},
        }
        let g = Geometry::of(self);
        if g.blocks > usize::MAX / 128 {
            return Err(Error::Allocation);
        }
        match acquire(128 * g.blocks) {
            None => Err(Error::Allocation),
            Some(memory) => {
                let mut memory = memory;
                Ok(self.derive_in(password, salt, secret, associated_data, &mut memory))
            },
        }
    }

    /// Hashes the given password with the given salt and returns the tag in
    /// its raw byte form. The salt is scrubbed before it is released.
    pub fn hash_password(&self, password: &str, salt: Vec<u8>) -> (r: Result<Vec<u8>, Error>)
        ensures
            outcome(
                *self,
                password.spec_bytes(),
                salt@,
                Seq::<u8>::empty(),
                Seq::<u8>::empty(),
                r,
            ),
            r matches Ok(t) ==> t@.len() == self.hash_length,
    {
        let mut salt = salt;
        let r = self.derive(password.as_bytes(), salt.as_slice(), None, None);
        scrub_bytes(&mut salt);
        r
    }

    /// Hashes the password with the salt, then scrubs both buffers and
    /// leaves them empty, on success and on every error alike.
    pub fn hash_and_scrub(&self, password: &mut Vec<u8>, salt: &mut Vec<u8>) -> (r: Result<
        Vec<u8>,
        Error,
    >)
        ensures
            outcome(
                *self,
                old(password)@,
                old(salt)@,
                Seq::<u8>::empty(),
                Seq::<u8>::empty(),
                r,
            ),
            r matches Ok(t) ==> t@.len() == self.hash_length,
            final(password)@.len() == 0,
            final(salt)@.len() == 0,
    {
        let r = self.derive(password.as_slice(), salt.as_slice(), None, None);
        scrub_bytes(password);
        scrub_bytes(salt);
        r
    }
}

} // verus!
