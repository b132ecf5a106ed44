//! BLAKE2b without a key, with a digest of 1 to 64 bytes.

use crate::bytes::{load64, read_word, words_bytes, write_bytes};
use vstd::prelude::*;

verus! {

/// The initialisation vector.
pub const IV: [u64; 8] = [
    0x6a09e667f3bcc908,
    0xbb67ae8584caa73b,
    0x3c6ef372fe94f82b,
    0xa54ff53a5f1d36f1,
    0x510e527fade682d1,
    0x9b05688c2b3e6c1f,
    0x1f83d9abfb41bd6b,
    0x5be0cd19137e2179,
];

/// The message word schedule: row `r` serves rounds `r` and `r + 10`.
pub const SIGMA: [[usize; 16]; 10] = [
    [0, 1, 2, 3, 4, 5, 6, 7, 8, 9, 10, 11, 12, 13, 14, 15],
    [14, 10, 4, 8, 9, 15, 13, 6, 1, 12, 0, 2, 11, 7, 5, 3],
    [11, 8, 12, 0, 5, 2, 15, 13, 10, 14, 3, 6, 7, 1, 9, 4],
    [7, 9, 3, 1, 13, 12, 11, 14, 2, 6, 5, 10, 4, 0, 15, 8],
    [9, 0, 5, 7, 2, 4, 10, 15, 14, 1, 11, 12, 6, 8, 3, 13],
    [2, 12, 6, 10, 0, 11, 8, 3, 4, 13, 7, 5, 15, 14, 1, 9],
    [12, 5, 1, 15, 14, 13, 4, 10, 0, 7, 6, 3, 9, 2, 8, 11],
    [13, 11, 7, 14, 12, 1, 3, 9, 5, 0, 15, 4, 8, 6, 2, 10],
    [6, 15, 14, 9, 11, 3, 0, 8, 12, 2, 13, 7, 1, 4, 10, 5],
    [10, 2, 8, 4, 7, 6, 1, 5, 15, 11, 9, 14, 3, 12, 13, 0],
];

/// Rotation of a word to the right by 32 bits.
pub open spec fn rotr32(x: u64) -> u64 {
    (x >> 32) | (x << 32)
}

/// Rotation of a word to the right by 24 bits.
pub open spec fn rotr24(x: u64) -> u64 {
    (x >> 24) | (x << 40)
}

/// Rotation of a word to the right by 16 bits.
pub open spec fn rotr16(x: u64) -> u64 {
    (x >> 16) | (x << 48)
}

/// Rotation of a word to the right by 63 bits.
pub open spec fn rotr63(x: u64) -> u64 {
    (x >> 63) | (x << 1)
}

/// The mixing function on four state words and two message words.
#[verifier::opaque]
pub open spec fn mix(a: u64, b: u64, c: u64, d: u64, x: u64, y: u64) -> (u64, u64, u64, u64) {
    let a = a.wrapping_add(b).wrapping_add(x);
    let d = rotr32(d ^ a);
    let c = c.wrapping_add(d);
    let b = rotr24(b ^ c);
    let a = a.wrapping_add(b).wrapping_add(y);
    let d = rotr16(d ^ a);
    let c = c.wrapping_add(d);
    let b = rotr63(b ^ c);
    (a, b, c, d)
}

/// The state `v` after mixing its words `a`, `b`, `c`, `d`.
#[verifier::opaque]
pub open spec fn mix_at(v: Seq<u64>, a: int, b: int, c: int, d: int, x: u64, y: u64) -> Seq<u64> {
    let r = mix(v[a], v[b], v[c], v[d], x, y);
    v.update(a, r.0).update(b, r.1).update(c, r.2).update(d, r.3)
}

/// One round: four column steps and four diagonal steps, with the message
/// words taken in the order `s`.
pub open spec fn round(v: Seq<u64>, m: Seq<u64>, s: Seq<usize>) -> Seq<u64> {
    let v = mix_at(v, 0, 4, 8, 12, m[s[0] as int], m[s[1] as int]);
    let v = mix_at(v, 1, 5, 9, 13, m[s[2] as int], m[s[3] as int]);
    let v = mix_at(v, 2, 6, 10, 14, m[s[4] as int], m[s[5] as int]);
    let v = mix_at(v, 3, 7, 11, 15, m[s[6] as int], m[s[7] as int]);
    let v = mix_at(v, 0, 5, 10, 15, m[s[8] as int], m[s[9] as int]);
    let v = mix_at(v, 1, 6, 11, 12, m[s[10] as int], m[s[11] as int]);
    let v = mix_at(v, 2, 7, 8, 13, m[s[12] as int], m[s[13] as int]);
    let v = mix_at(v, 3, 4, 9, 14, m[s[14] as int], m[s[15] as int]);
    v
}

/// The state after the first `n` rounds.
pub open spec fn rounds(v: Seq<u64>, m: Seq<u64>, n: nat) -> Seq<u64>
    decreases n,
{
    if n == 0 {
        v
    } else {
        round(rounds(v, m, (n - 1) as nat), m, SIGMA[(n - 1) % 10]@)
    }
}

/// The word that marks the last block.
pub open spec fn last_flag(last: bool) -> u64 {
    if last {
        0xffff_ffff_ffff_ffff
    } else {
        0
    }
}

/// The sixteen working words that a compression starts from: the chaining
/// value, then the initialisation vector with the byte counter `t` and the
/// last-block flag folded in.
pub open spec fn work_vector(h: Seq<u64>, t: u64, last: bool) -> Seq<u64> {
    seq![
        h[0],
        h[1],
        h[2],
        h[3],
        h[4],
        h[5],
        h[6],
        h[7],
        IV[0],
        IV[1],
        IV[2],
        IV[3],
        IV[4] ^ t,
        IV[5],
        IV[6] ^ last_flag(last),
        IV[7],
    ]
}

/// The compression function: the chaining value after the block `m`, where
/// `t` bytes have been hashed up to and including this block.
#[verifier::opaque]
pub open spec fn compress(h: Seq<u64>, m: Seq<u64>, t: u64, last: bool) -> Seq<u64> {
    let v = rounds(work_vector(h, t, last), m, 12);
    Seq::new(8, |i: int| h[i] ^ v[i] ^ v[i + 8])
}

/// The sixteen message words of the block that starts at byte `off`.
pub open spec fn block_words(data: Seq<u8>, off: int) -> Seq<u64> {
    Seq::new(16, |i: int| load64(data, off + 8 * i))
}

/// The chaining value before any block, for a digest of `out_len` bytes.
pub open spec fn initial_state(out_len: nat) -> Seq<u64> {
    seq![
        IV[0] ^ (0x0101_0000u64 | (out_len as u64)),
        IV[1],
        IV[2],
        IV[3],
        IV[4],
        IV[5],
        IV[6],
        IV[7],
    ]
}

/// The number of blocks of a message of `len` bytes that come before its
/// last block.
pub open spec fn inner_blocks(len: nat) -> nat {
    if len == 0 {
        0
    } else {
        ((len - 1) / 128) as nat
    }
}

/// The chaining value after the first `n` blocks of `data`, none of them the
/// last.
pub open spec fn absorb(h: Seq<u64>, data: Seq<u8>, n: nat) -> Seq<u64>
    decreases n,
{
    if n == 0 {
        h
    } else {
        compress(
            absorb(h, data, (n - 1) as nat),
            block_words(data, 128 * (n - 1)),
            (128 * n) as u64,
            false,
        )
    }
}

/// The final chaining value for the message `data`.
pub open spec fn final_state(data: Seq<u8>, out_len: nat) -> Seq<u64> {
    let n = inner_blocks(data.len());
    compress(
        absorb(initial_state(out_len), data, n),
        block_words(data, 128 * (n as int)),
        data.len() as u64,
        true,
    )
}

/// The BLAKE2b digest of `data`, `out_len` bytes long.
pub open spec fn digest(data: Seq<u8>, out_len: nat) -> Seq<u8> {
    words_bytes(final_state(data, out_len)).take(out_len as int)
}

/// Every entry of the message schedule names one of the sixteen words.
pub proof fn lemma_sigma_in_range(r: int, k: int)
    requires
        0 <= r < 10,
        0 <= k < 16,
    ensures
        SIGMA[r][k] < 16,
{
    let row = SIGMA[r];
    assert(r == 0 || r == 1 || r == 2 || r == 3 || r == 4 || r == 5 || r == 6 || r == 7 || r == 8
        || r == 9);
    assert(k == 0 || k == 1 || k == 2 || k == 3 || k == 4 || k == 5 || k == 6 || k == 7 || k == 8
        || k == 9 || k == 10 || k == 11 || k == 12 || k == 13 || k == 14 || k == 15);
}

fn mix_words(a: u64, b: u64, c: u64, d: u64, x: u64, y: u64) -> (r: (u64, u64, u64, u64))
    ensures
        r == mix(a, b, c, d, x, y),
{
    reveal(mix);
    let a = a.wrapping_add(b).wrapping_add(x);
    let d = d ^ a;
    let d = (d >> 32) | (d << 32);
    let c = c.wrapping_add(d);
    let b = b ^ c;
    let b = (b >> 24) | (b << 40);
    let a = a.wrapping_add(b).wrapping_add(y);
    let d = d ^ a;
    let d = (d >> 16) | (d << 48);
    let c = c.wrapping_add(d);
    let b = b ^ c;
    let b = (b >> 63) | (b << 1);
    (a, b, c, d)
}

fn mix_in_place(v: &mut [u64; 16], a: usize, b: usize, c: usize, d: usize, x: u64, y: u64)
    requires
        a < 16,
        b < 16,
        c < 16,
        d < 16,
    ensures
        final(v)@ == mix_at(old(v)@, a as int, b as int, c as int, d as int, x, y),
{
    reveal(mix_at);
    let r = mix_words(v[a], v[b], v[c], v[d], x, y);
    v[a] = r.0;
    v[b] = r.1;
    v[c] = r.2;
    v[d] = r.3;
}

fn round_in_place(v: &mut [u64; 16], m: &[u64; 16], s: &[usize; 16])
    requires
        forall|k: int| 0 <= k < 16 ==> s[k] < 16,
    ensures
        final(v)@ == round(old(v)@, m@, s@),
{
    mix_in_place(v, 0, 4, 8, 12, m[s[0]], m[s[1]]);
    mix_in_place(v, 1, 5, 9, 13, m[s[2]], m[s[3]]);
    mix_in_place(v, 2, 6, 10, 14, m[s[4]], m[s[5]]);
    mix_in_place(v, 3, 7, 11, 15, m[s[6]], m[s[7]]);
    mix_in_place(v, 0, 5, 10, 15, m[s[8]], m[s[9]]);
    mix_in_place(v, 1, 6, 11, 12, m[s[10]], m[s[11]]);
    mix_in_place(v, 2, 7, 8, 13, m[s[12]], m[s[13]]);
    mix_in_place(v, 3, 4, 9, 14, m[s[14]], m[s[15]]);
}

/// Replaces the chaining value `h` by its successor after the block `m`.
fn compress_in_place(h: &mut [u64; 8], m: &[u64; 16], t: u64, last: bool)
    ensures
        final(h)@ == compress(old(h)@, m@, t, last),
{
    let flag: u64 = if last {
        0xffff_ffff_ffff_ffff
    } else {
        0
    };
    let mut v: [u64; 16] = [
        h[0],
        h[1],
        h[2],
        h[3],
        h[4],
        h[5],
        h[6],
        h[7],
        IV[0],
        IV[1],
        IV[2],
        IV[3],
        IV[4] ^ t,
        IV[5],
        IV[6] ^ flag,
        IV[7],
    ];
    assert(v@ =~= work_vector(h@, t, last));
    let mut r: usize = 0;
    while r < 12
        invariant
            r <= 12,
            v@ == rounds(work_vector(h@, t, last), m@, r as nat),
        decreases 12 - r,
    {
        let ghost row = SIGMA[(r % 10) as int];
        assert forall|k: int| 0 <= k < 16 implies #[trigger] row[k] < 16 by {
            lemma_sigma_in_range((r % 10) as int, k);
        }
        round_in_place(&mut v, m, &SIGMA[r % 10]);
        r = r + 1;
    }
    let ghost h0 = h@;
    let mut i: usize = 0;
    while i < 8
        invariant
            i <= 8,
            forall|k: int| 0 <= k < i ==> h@[k] == h0[k] ^ v@[k] ^ v@[k + 8],
            forall|k: int| i <= k < 8 ==> h@[k] == h0[k],
        decreases 8 - i,
    {
        h[i] = h[i] ^ v[i] ^ v[i + 8];
        i = i + 1;
    }
    assert(h@ =~= compress(h0, m@, t, last)) by {
        reveal(compress);
    }
}

/// Reads the sixteen message words of the block at byte `off` of `data`.
fn read_block(data: &[u8], off: usize) -> (m: [u64; 16])
    requires
        off <= data@.len(),
    ensures
        m@ == block_words(data@, off as int),
{
    let mut m: [u64; 16] = [0;16];
    let mut i: usize = 0;
    while i < 16
        invariant
            i <= 16,
            off <= data@.len(),
            forall|k: int| 0 <= k < i ==> m@[k] == load64(data@, off + 8 * k),
        decreases 16 - i,
    {
        m[i] = read_word(data, off, 8 * i);
        i = i + 1;
    }
    assert(m@ =~= block_words(data@, off as int));
    m
}

/// Hashes `data` to a digest of `out_len` bytes.
pub fn hash(data: &[u8], out_len: usize) -> (out: Vec<u8>)
    requires
        1 <= out_len <= 64,
    ensures
        out@ == digest(data@, out_len as nat),
{
    let n: usize = data.len();
    let mut h: [u64; 8] = [
        IV[0] ^ (0x0101_0000u64 | (out_len as u64)),
        IV[1],
        IV[2],
        IV[3],
        IV[4],
        IV[5],
        IV[6],
        IV[7],
    ];
    assert(h@ =~= initial_state(out_len as nat));
    let inner: usize = if n == 0 {
        0
    } else {
        (n - 1) / 128
    };
    let mut i: usize = 0;
    while i < inner
        invariant
            i <= inner,
            n == data@.len(),
            inner == inner_blocks(n as nat),
            h@ == absorb(initial_state(out_len as nat), data@, i as nat),
        decreases inner - i,
    {
        let m = read_block(data, 128 * i);
        compress_in_place(&mut h, &m, (128 * (i + 1)) as u64, false);
        i = i + 1;
    }
    let m = read_block(data, 128 * inner);
    compress_in_place(&mut h, &m, n as u64, true);
    write_bytes(&h, out_len)
}

} // verus!
