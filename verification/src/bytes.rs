//! Little-endian encodings of words and the byte views of word sequences.

use vstd::prelude::*;

verus! {

/// The four bytes of `x`, lowest first.
pub open spec fn le32(x: u32) -> Seq<u8> {
    seq![x as u8, (x >> 8) as u8, (x >> 16) as u8, (x >> 24) as u8]
}

/// Byte `k` of `data`, and zero outside it.
pub open spec fn byte_at(data: Seq<u8>, k: int) -> u8 {
    if 0 <= k < data.len() {
        data[k]
    } else {
        0
    }
}

/// The word whose eight bytes, lowest first, stand at `off` in `data`;
/// bytes beyond the end of `data` count as zero.
pub open spec fn load64(data: Seq<u8>, off: int) -> u64 {
    (byte_at(data, off) as u64) | ((byte_at(data, off + 1) as u64) << 8) | ((byte_at(
        data,
        off + 2,
    ) as u64) << 16) | ((byte_at(data, off + 3) as u64) << 24) | ((byte_at(data, off + 4) as u64)
        << 32) | ((byte_at(data, off + 5) as u64) << 40) | ((byte_at(data, off + 6) as u64) << 48)
        | ((byte_at(data, off + 7) as u64) << 56)
}

/// Byte `k` (0 the lowest, up to 7) of the word `w`.
pub open spec fn word_byte(w: u64, k: int) -> u8 {
    (w >> ((8 * k) as u64)) as u8
}

/// The bytes of a sequence of words, each word lowest byte first.
pub open spec fn words_bytes(ws: Seq<u64>) -> Seq<u8> {
    Seq::new(8 * ws.len(), |k: int| word_byte(ws[k / 8], k % 8))
}

/// The words that `bytes` holds, eight bytes each; a trailing part of fewer
/// than eight bytes is left out.
pub open spec fn bytes_words(bytes: Seq<u8>) -> Seq<u64> {
    Seq::new(bytes.len() / 8, |i: int| load64(bytes, 8 * i))
}

/// Appends the little-endian encoding of `x` to `buf`.
pub fn push_le32(buf: &mut Vec<u8>, x: u32)
    ensures
        final(buf)@ == old(buf)@ + le32(x),
{
    buf.push(#[verifier::truncate] (x as u8));
    buf.push(#[verifier::truncate] ((x >> 8) as u8));
    buf.push(#[verifier::truncate] ((x >> 16) as u8));
    buf.push(#[verifier::truncate] ((x >> 24) as u8));
    assert(buf@ =~= old(buf)@ + le32(x));
}

/// Appends the first `n` bytes of `src` to `buf`.
pub fn push_bytes(buf: &mut Vec<u8>, src: &[u8], n: usize)
    requires
        n <= src@.len(),
    ensures
        final(buf)@ == old(buf)@ + src@.take(n as int),
{
    let mut i: usize = 0;
    while i < n
        invariant
            i <= n <= src@.len(),
            buf@ == old(buf)@ + src@.take(i as int),
        decreases n - i,
    {
        buf.push(src[i]);
        i = i + 1;
        assert(buf@ =~= old(buf)@ + src@.take(i as int));
    }
}

/// Reads byte `off + k` of `data`, zero beyond its end.
pub fn read_byte(data: &[u8], off: usize, k: usize) -> (b: u8)
    ensures
        b == byte_at(data@, off + k),
{
    if off < data.len() && k < data.len() - off {
        data[off + k]
    } else {
        0
    }
}

/// Reads the word at `off + k` in `data`, lowest byte first, zero-padded.
pub fn read_word(data: &[u8], off: usize, k: usize) -> (w: u64)
    requires
        k + 7 <= usize::MAX,
    ensures
        w == load64(data@, off + k),
{
    let b0 = read_byte(data, off, k);
    let b1 = read_byte(data, off, k + 1);
    let b2 = read_byte(data, off, k + 2);
    let b3 = read_byte(data, off, k + 3);
    let b4 = read_byte(data, off, k + 4);
    let b5 = read_byte(data, off, k + 5);
    let b6 = read_byte(data, off, k + 6);
    let b7 = read_byte(data, off, k + 7);
    (b0 as u64) | ((b1 as u64) << 8) | ((b2 as u64) << 16) | ((b3 as u64) << 24) | ((b4 as u64)
        << 32) | ((b5 as u64) << 40) | ((b6 as u64) << 48) | ((b7 as u64) << 56)
}

/// Writes the first `n` bytes of the words of `ws`, each word lowest byte
/// first.
pub fn write_bytes(ws: &[u64], n: usize) -> (out: Vec<u8>)
    requires
        n <= 8 * ws@.len(),
    ensures
        out@ == words_bytes(ws@).take(n as int),
{
    let mut out: Vec<u8> = Vec::new();
    let mut i: usize = 0;
    while i < n
        invariant
            i <= n,
            n <= 8 * ws@.len(),
            out@.len() == i,
            forall|k: int| 0 <= k < i ==> out@[k] == word_byte(#[trigger] ws@[k / 8], k % 8),
        decreases n - i,
    {
        let sh: u64 = (8 * (i % 8)) as u64;
        out.push(#[verifier::truncate] ((ws[i / 8] >> sh) as u8));
        i = i + 1;
    }
    assert(out@ =~= words_bytes(ws@).take(n as int));
    out
}

/// Reads `bytes` as words of eight bytes, lowest byte first.
pub fn read_words(bytes: &[u8]) -> (ws: Vec<u64>)
    ensures
        ws@ == bytes_words(bytes@),
{
    let n: usize = bytes.len() / 8;
    let mut ws: Vec<u64> = Vec::new();
    let mut i: usize = 0;
    while i < n
        invariant
            i <= n,
            n == bytes@.len() / 8,
            8 * n <= bytes@.len() <= usize::MAX,
            ws@.len() == i,
            forall|k: int| 0 <= k < i ==> ws@[k] == load64(bytes@, 8 * k),
        decreases n - i,
    {
        ws.push(read_word(bytes, 8 * i, 0));
        i = i + 1;
    }
    assert(ws@ =~= bytes_words(bytes@));
    ws
}

} // verus!
