//! The 1024-byte block and the compression function that mixes two blocks
//! into one.

use crate::blake2b::{rotr16, rotr24, rotr32, rotr63};
use vstd::prelude::*;

verus! {

/// Addition made harder by a multiplication of the two low halves:
/// `x + y + 2 * low(x) * low(y)`, modulo 2^64.
pub open spec fn mul_add(x: u64, y: u64) -> u64 {
    x.wrapping_add(y).wrapping_add(
        2u64.wrapping_mul((x & 0xffff_ffff).wrapping_mul(y & 0xffff_ffff)),
    )
}

/// The mixing function on four words.
#[verifier::opaque]
pub open spec fn quarter(a: u64, b: u64, c: u64, d: u64) -> (u64, u64, u64, u64) {
    let a = mul_add(a, b);
    let d = rotr32(d ^ a);
    let c = mul_add(c, d);
    let b = rotr24(b ^ c);
    let a = mul_add(a, b);
    let d = rotr16(d ^ a);
    let c = mul_add(c, d);
    let b = rotr63(b ^ c);
    (a, b, c, d)
}

/// The block `v` after mixing its words `a`, `b`, `c`, `d`.
#[verifier::opaque]
pub open spec fn quarter_at(v: Seq<u64>, a: int, b: int, c: int, d: int) -> Seq<u64> {
    let r = quarter(v[a], v[b], v[c], v[d]);
    v.update(a, r.0).update(b, r.1).update(c, r.2).update(d, r.3)
}

/// One round on the sixteen words whose places in the block `at` gives:
/// the four columns of the 4 x 4 square they form, then its four diagonals.
pub open spec fn round_on(v: Seq<u64>, at: spec_fn(int) -> int) -> Seq<u64> {
    let v = quarter_at(v, at(0), at(4), at(8), at(12));
    let v = quarter_at(v, at(1), at(5), at(9), at(13));
    let v = quarter_at(v, at(2), at(6), at(10), at(14));
    let v = quarter_at(v, at(3), at(7), at(11), at(15));
    let v = quarter_at(v, at(0), at(5), at(10), at(15));
    let v = quarter_at(v, at(1), at(6), at(11), at(12));
    let v = quarter_at(v, at(2), at(7), at(8), at(13));
    let v = quarter_at(v, at(3), at(4), at(9), at(14));
    v
}

/// Place in the block of word `j` of row `i`, the block seen as 8 rows of
/// 16 words.
pub open spec fn row_index(i: int, j: int) -> int {
    16 * i + j
}

/// Place in the block of word `j` of column `i`, the block seen as an
/// 8 x 8 matrix of pairs of words.
pub open spec fn column_index(i: int, j: int) -> int {
    2 * i + 16 * (j / 2) + j % 2
}

/// The block after a round on each of its first `n` rows.
pub open spec fn rows(v: Seq<u64>, n: nat) -> Seq<u64>
    decreases n,
{
    if n == 0 {
        v
    } else {
        round_on(rows(v, (n - 1) as nat), |j: int| row_index(n - 1, j))
    }
}

/// The block after a round on each of its first `n` columns.
pub open spec fn columns(v: Seq<u64>, n: nat) -> Seq<u64>
    decreases n,
{
    if n == 0 {
        v
    } else {
        round_on(columns(v, (n - 1) as nat), |j: int| column_index(n - 1, j))
    }
}

/// The permutation of a block: a round on every row, then on every column.
pub open spec fn permute(v: Seq<u64>) -> Seq<u64> {
    columns(rows(v, 8), 8)
}

/// The word-by-word XOR of two blocks.
pub open spec fn xor(x: Seq<u64>, y: Seq<u64>) -> Seq<u64> {
    Seq::new(128, |i: int| x[i] ^ y[i])
}

/// The compression function: with `r` the XOR of the two blocks, the XOR of
/// `r` and its permutation.
#[verifier::opaque]
pub open spec fn compress(x: Seq<u64>, y: Seq<u64>) -> Seq<u64> {
    let r = xor(x, y);
    xor(r, permute(r))
}

/// A compressed block has 128 words.
pub proof fn lemma_compress_len(x: Seq<u64>, y: Seq<u64>)
    ensures
        compress(x, y).len() == 128,
{
    reveal(compress);
}

/// Block `i` of a memory of words.
pub open spec fn block_at(mem: Seq<u64>, i: int) -> Seq<u64> {
    mem.subrange(128 * i, 128 * i + 128)
}

/// The memory with block `i` replaced by `b`.
pub open spec fn write_block(mem: Seq<u64>, i: int, b: Seq<u64>) -> Seq<u64> {
    Seq::new(
        mem.len(),
        |k: int|
            if 128 * i <= k < 128 * i + 128 {
                b[k - 128 * i]
            } else {
                mem[k]
            },
    )
}

/// The block that a step writes: the compression of the previous and the
/// reference block, XORed onto the block already there where `with_xor`
/// says so.
pub open spec fn next_block(x: Seq<u64>, y: Seq<u64>, old_block: Seq<u64>, with_xor: bool) -> Seq<
    u64,
> {
    if with_xor {
        xor(compress(x, y), old_block)
    } else {
        compress(x, y)
    }
}

fn mul_add_words(x: u64, y: u64) -> (r: u64)
    ensures
        r == mul_add(x, y),
{
    x.wrapping_add(y).wrapping_add(
        2u64.wrapping_mul((x & 0xffff_ffff).wrapping_mul(y & 0xffff_ffff)),
    )
}

fn quarter_words(a: u64, b: u64, c: u64, d: u64) -> (r: (u64, u64, u64, u64))
    ensures
        r == quarter(a, b, c, d),
{
    reveal(quarter);
    let a = mul_add_words(a, b);
    let d = d ^ a;
    let d = (d >> 32) | (d << 32);
    let c = mul_add_words(c, d);
    let b = b ^ c;
    let b = (b >> 24) | (b << 40);
    let a = mul_add_words(a, b);
    let d = d ^ a;
    let d = (d >> 16) | (d << 48);
    let c = mul_add_words(c, d);
    let b = b ^ c;
    let b = (b >> 63) | (b << 1);
    (a, b, c, d)
}

fn quarter_in_place(v: &mut [u64; 128], a: usize, b: usize, c: usize, d: usize)
    requires
        a < 128,
        b < 128,
        c < 128,
        d < 128,
    ensures
        final(v)@ == quarter_at(old(v)@, a as int, b as int, c as int, d as int),
{
    reveal(quarter_at);
    let r = quarter_words(v[a], v[b], v[c], v[d]);
    v[a] = r.0;
    v[b] = r.1;
    v[c] = r.2;
    v[d] = r.3;
}

fn row_round(v: &mut [u64; 128], i: usize)
    requires
        i < 8,
    ensures
        final(v)@ == round_on(old(v)@, |j: int| row_index(i as int, j)),
{
    let o: usize = 16 * i;
    quarter_in_place(v, o, o + 4, o + 8, o + 12);
    quarter_in_place(v, o + 1, o + 5, o + 9, o + 13);
    quarter_in_place(v, o + 2, o + 6, o + 10, o + 14);
    quarter_in_place(v, o + 3, o + 7, o + 11, o + 15);
    quarter_in_place(v, o, o + 5, o + 10, o + 15);
    quarter_in_place(v, o + 1, o + 6, o + 11, o + 12);
    quarter_in_place(v, o + 2, o + 7, o + 8, o + 13);
    quarter_in_place(v, o + 3, o + 4, o + 9, o + 14);
}

fn column_round(v: &mut [u64; 128], i: usize)
    requires
        i < 8,
    ensures
        final(v)@ == round_on(old(v)@, |j: int| column_index(i as int, j)),
{
    let o: usize = 2 * i;
    quarter_in_place(v, o, o + 32, o + 64, o + 96);
    quarter_in_place(v, o + 1, o + 33, o + 65, o + 97);
    quarter_in_place(v, o + 16, o + 48, o + 80, o + 112);
    quarter_in_place(v, o + 17, o + 49, o + 81, o + 113);
    quarter_in_place(v, o, o + 33, o + 80, o + 113);
    quarter_in_place(v, o + 1, o + 48, o + 81, o + 96);
    quarter_in_place(v, o + 16, o + 49, o + 64, o + 97);
    quarter_in_place(v, o + 17, o + 32, o + 65, o + 112);
}

/// Permutes the block in place.
pub fn permute_in_place(v: &mut [u64; 128])
    ensures
        final(v)@ == permute(old(v)@),
{
    let mut i: usize = 0;
    while i < 8
        invariant
            i <= 8,
            v@ == rows(old(v)@, i as nat),
        decreases 8 - i,
    {
        row_round(v, i);
        i = i + 1;
    }
    let ghost mid = v@;
    let mut i: usize = 0;
    while i < 8
        invariant
            i <= 8,
            v@ == columns(mid, i as nat),
        decreases 8 - i,
    {
        column_round(v, i);
        i = i + 1;
    }
}

/// Compresses two blocks into one.
pub fn compress_blocks(x: &[u64; 128], y: &[u64; 128]) -> (out: [u64; 128])
    ensures
        out@ == compress(x@, y@),
{
    let mut r: [u64; 128] = [0;128];
    let mut i: usize = 0;
    while i < 128
        invariant
            i <= 128,
            forall|k: int| 0 <= k < i ==> r@[k] == x@[k] ^ y@[k],
        decreases 128 - i,
    {
        r[i] = x[i] ^ y[i];
        i = i + 1;
    }
    assert(r@ =~= xor(x@, y@));
    let mut q: [u64; 128] = r;
    permute_in_place(&mut q);
    let mut i: usize = 0;
    while i < 128
        invariant
            i <= 128,
            forall|k: int| 0 <= k < i ==> q@[k] == r@[k] ^ permute(r@)[k],
            forall|k: int| i <= k < 128 ==> q@[k] == permute(r@)[k],
        decreases 128 - i,
    {
        q[i] = r[i] ^ q[i];
        i = i + 1;
    }
    assert(q@ =~= compress(x@, y@)) by {
        reveal(compress);
    }
    q
}

/// Writes into block `cur` of the memory the compression of its blocks
/// `prev` and `refb`, XORed onto what block `cur` held where `with_xor` is
/// set. Nothing else changes.
pub fn fill_block(mem: &mut Vec<u64>, prev: usize, refb: usize, cur: usize, with_xor: bool)
    requires
        128 * prev + 128 <= old(mem)@.len(),
        128 * refb + 128 <= old(mem)@.len(),
        128 * cur + 128 <= old(mem)@.len(),
    ensures
        final(mem)@ == write_block(
            old(mem)@,
            cur as int,
            next_block(
                block_at(old(mem)@, prev as int),
                block_at(old(mem)@, refb as int),
                block_at(old(mem)@, cur as int),
                with_xor,
            ),
        ),
{
    let ghost before = mem@;
    let ghost len = mem@.len();
    assert(len <= usize::MAX) by {
        let l = mem.len();
    }
    let mut x: [u64; 128] = [0;128];
    let mut y: [u64; 128] = [0;128];
    let mut i: usize = 0;
    while i < 128
        invariant
            i <= 128,
            mem@ == before,
            128 * prev + 128 <= len <= usize::MAX,
            128 * refb + 128 <= len,
            len == before.len(),
            forall|k: int| 0 <= k < i ==> x@[k] == before[128 * prev + k],
            forall|k: int| 0 <= k < i ==> y@[k] == before[128 * refb + k],
        decreases 128 - i,
    {
        x[i] = mem[128 * prev + i];
        y[i] = mem[128 * refb + i];
        i = i + 1;
    }
    assert(x@ =~= block_at(before, prev as int));
    assert(y@ =~= block_at(before, refb as int));
    let z = compress_blocks(&x, &y);
    let ghost next = next_block(x@, y@, block_at(before, cur as int), with_xor);
    proof {
        lemma_compress_len(x@, y@);
    }
    let mut i: usize = 0;
    while i < 128
        invariant
            i <= 128,
            128 * cur + 128 <= len <= usize::MAX,
            mem@.len() == len,
            len == before.len(),
            z@ == compress(x@, y@),
            next == next_block(x@, y@, block_at(before, cur as int), with_xor),
            forall|k: int| 0 <= k < len && !(128 * cur <= k < 128 * cur + i) ==> mem@[k] == before[k],
            forall|k: int| 128 * cur <= k < 128 * cur + i ==> mem@[k] == next[k - 128 * cur],
        decreases 128 - i,
    {
        let w: u64 = if with_xor {
            z[i] ^ mem[128 * cur + i]
        } else {
            z[i]
        };
        mem[128 * cur + i] = w;
        i = i + 1;
    }
    assert(mem@ =~= write_block(before, cur as int, next));
}

/// The block just written can be read back.
pub proof fn lemma_write_block_same(mem: Seq<u64>, i: int, b: Seq<u64>)
    requires
        0 <= i,
        128 * i + 128 <= mem.len(),
        b.len() == 128,
    ensures
        block_at(write_block(mem, i, b), i) == b,
{
    assert(block_at(write_block(mem, i, b), i) =~= b);
}

/// Writing a block leaves every other block as it was.
pub proof fn lemma_write_block_other(mem: Seq<u64>, i: int, b: Seq<u64>, k: int)
    requires
        0 <= k,
        128 * k + 128 <= mem.len(),
        k != i,
    ensures
        block_at(write_block(mem, i, b), k) == block_at(mem, k),
{
    assert(block_at(write_block(mem, i, b), k) =~= block_at(mem, k));
}

/// The block that a step writes has 128 words.
pub proof fn lemma_next_block_len(x: Seq<u64>, y: Seq<u64>, old_block: Seq<u64>, with_xor: bool)
    ensures
        next_block(x, y, old_block, with_xor).len() == 128,
{
    lemma_compress_len(x, y);
}

} // verus!
