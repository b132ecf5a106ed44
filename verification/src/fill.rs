//! Filling the memory: pass after pass, segment after segment, lane after
//! lane, block after block.

use crate::block::{
    block_at, compress, compress_blocks, fill_block, lemma_next_block_len, next_block,
    write_block,
};
use crate::geometry::{lemma_block_in_memory, lemma_column_in_lane, Geometry};
use crate::index::{
    data_independent, first_index, is_data_independent, is_step, reference_column,
    reference_column_of, reference_lane, reference_lane_of,
};
use crate::params::Version;
use vstd::prelude::*;

verus! {

/// The block of zeros.
pub open spec fn zero_block() -> Seq<u64> {
    Seq::new(128, |k: int| 0u64)
}

/// The block from which the pseudo-random values number `counter` of a
/// segment are made: the place of the segment, the shape of the memory, the
/// variant and the counter, then zeros.
pub open spec fn address_input(g: Geometry, pass: int, lane: int, slice: int, counter: int) -> Seq<
    u64,
> {
    Seq::new(
        128,
        |k: int|
            if k == 0 {
                pass as u64
            } else if k == 1 {
                lane as u64
            } else if k == 2 {
                slice as u64
            } else if k == 3 {
                g.blocks as u64
            } else if k == 4 {
                g.passes as u64
            } else if k == 5 {
                g.algorithm.spec_code() as u64
            } else if k == 6 {
                counter as u64
            } else {
                0u64
            },
    )
}

/// The 128 pseudo-random values number `counter` of a segment under
/// data-independent addressing: the input block compressed twice, each time
/// with the block of zeros.
pub open spec fn address_block(g: Geometry, pass: int, lane: int, slice: int, counter: int) -> Seq<
    u64,
> {
    compress(zero_block(), compress(zero_block(), address_input(g, pass, lane, slice, counter)))
}

/// The pseudo-random value of a step: under data-independent addressing one
/// of the values made from the counter, else the first word of the previous
/// block of the lane.
pub open spec fn pseudo_random(
    g: Geometry,
    mem: Seq<u64>,
    pass: int,
    slice: int,
    lane: int,
    index: int,
) -> u64 {
    if data_independent(g.algorithm, pass, slice) {
        address_block(g, pass, lane, slice, index / 128 + 1)[index % 128]
    } else {
        mem[128 * g.block_index(lane, g.previous_column(g.column(slice, index)))]
    }
}

/// The place in the memory of the reference block of a step whose
/// pseudo-random value is `j`: the upper half of `j` selects the lane, the
/// lower half the column.
pub open spec fn reference_block(
    g: Geometry,
    pass: int,
    slice: int,
    lane: int,
    index: int,
    j: u64,
) -> int {
    let ref_lane = reference_lane(g, pass, slice, lane, j);
    g.block_index(
        ref_lane,
        reference_column(g, pass, slice, index, (j as int) % 0x1_0000_0000, ref_lane == lane),
    )
}

/// Whether a step XORs the new block onto the one it replaces: from the
/// second pass on in version 0x13, never in version 0x10.
pub open spec fn accumulates(g: Geometry, pass: int) -> bool {
    g.version == Version::V0x13 && pass > 0
}

/// The memory after the step that computes block `index` of segment `slice`
/// of lane `lane` in pass `pass`: that block becomes the compression of the
/// block before it and of the reference block.
#[verifier::opaque]
pub open spec fn step(g: Geometry, mem: Seq<u64>, pass: int, slice: int, lane: int, index: int) -> Seq<
    u64,
> {
    let column = g.column(slice, index);
    let current = g.block_index(lane, column);
    let previous = g.block_index(lane, g.previous_column(column));
    let j = pseudo_random(g, mem, pass, slice, lane, index);
    let reference = reference_block(g, pass, slice, lane, index, j);
    write_block(
        mem,
        current,
        next_block(
            block_at(mem, previous),
            block_at(mem, reference),
            block_at(mem, current),
            accumulates(g, pass),
        ),
    )
}

/// The memory after the steps of one segment up to, not including, block
/// `upto`.
pub open spec fn fill_segment(
    g: Geometry,
    mem: Seq<u64>,
    pass: int,
    slice: int,
    lane: int,
    upto: int,
) -> Seq<u64>
    decreases upto,
{
    if upto <= first_index(pass, slice) {
        mem
    } else {
        step(g, fill_segment(g, mem, pass, slice, lane, upto - 1), pass, slice, lane, upto - 1)
    }
}

/// The memory after segment `slice` of the first `lanes` lanes.
pub open spec fn fill_slice(g: Geometry, mem: Seq<u64>, pass: int, slice: int, lanes: int) -> Seq<
    u64,
>
    decreases lanes,
{
    if lanes <= 0 {
        mem
    } else {
        fill_segment(
            g,
            fill_slice(g, mem, pass, slice, lanes - 1),
            pass,
            slice,
            lanes - 1,
            g.segment_length as int,
        )
    }
}

/// The memory after the first `slices` segments of every lane in pass
/// `pass`.
pub open spec fn fill_pass(g: Geometry, mem: Seq<u64>, pass: int, slices: int) -> Seq<u64>
    decreases slices,
{
    if slices <= 0 {
        mem
    } else {
        fill_slice(g, fill_pass(g, mem, pass, slices - 1), pass, slices - 1, g.lanes as int)
    }
}

/// The memory after the first `passes` passes.
pub open spec fn fill_passes(g: Geometry, mem: Seq<u64>, passes: int) -> Seq<u64>
    decreases passes,
{
    if passes <= 0 {
        mem
    } else {
        fill_pass(g, fill_passes(g, mem, passes - 1), passes - 1, 4)
    }
}

/// The memory after all passes.
pub open spec fn fill(g: Geometry, mem: Seq<u64>) -> Seq<u64> {
    fill_passes(g, mem, g.passes as int)
}

/// Filling part of a segment leaves the size of the memory as it was.
pub proof fn lemma_fill_segment_len(
    g: Geometry,
    mem: Seq<u64>,
    pass: int,
    slice: int,
    lane: int,
    upto: int,
)
    ensures
        fill_segment(g, mem, pass, slice, lane, upto).len() == mem.len(),
    decreases upto,
{
    if upto > first_index(pass, slice) {
        reveal(step);
        lemma_fill_segment_len(g, mem, pass, slice, lane, upto - 1);
    }
}

/// Filling a segment in some lanes leaves the size of the memory as it was.
pub proof fn lemma_fill_slice_len(g: Geometry, mem: Seq<u64>, pass: int, slice: int, lanes: int)
    ensures
        fill_slice(g, mem, pass, slice, lanes).len() == mem.len(),
    decreases lanes,
{
    if lanes > 0 {
        lemma_fill_slice_len(g, mem, pass, slice, lanes - 1);
        lemma_fill_segment_len(
            g,
            fill_slice(g, mem, pass, slice, lanes - 1),
            pass,
            slice,
            lanes - 1,
            g.segment_length as int,
        );
    }
}

/// Filling part of a pass leaves the size of the memory as it was.
pub proof fn lemma_fill_pass_len(g: Geometry, mem: Seq<u64>, pass: int, slices: int)
    ensures
        fill_pass(g, mem, pass, slices).len() == mem.len(),
    decreases slices,
{
    if slices > 0 {
        lemma_fill_pass_len(g, mem, pass, slices - 1);
        lemma_fill_slice_len(
            g,
            fill_pass(g, mem, pass, slices - 1),
            pass,
            slices - 1,
            g.lanes as int,
        );
    }
}

/// Filling leaves the size of the memory as it was.
pub proof fn lemma_fill_passes_len(g: Geometry, mem: Seq<u64>, passes: int)
    ensures
        fill_passes(g, mem, passes).len() == mem.len(),
    decreases passes,
{
    if passes > 0 {
        lemma_fill_passes_len(g, mem, passes - 1);
        lemma_fill_pass_len(g, fill_passes(g, mem, passes - 1), passes - 1, 4);
    }
}

/// The block that the step for block `index` of lane `lane` writes into
/// the memory `s`.
pub open spec fn step_block(
    g: Geometry,
    s: Seq<u64>,
    pass: int,
    slice: int,
    lane: int,
    index: int,
) -> Seq<u64> {
    let column = g.column(slice, index);
    let j = pseudo_random(g, s, pass, slice, lane, index);
    next_block(
        block_at(s, g.block_index(lane, g.previous_column(column))),
        block_at(s, reference_block(g, pass, slice, lane, index, j)),
        block_at(s, g.block_index(lane, column)),
        accumulates(g, pass),
    )
}

/// A step replaces one block, the one it computes.
pub proof fn lemma_step_writes(
    g: Geometry,
    s: Seq<u64>,
    pass: int,
    slice: int,
    lane: int,
    index: int,
)
    ensures
        step(g, s, pass, slice, lane, index) == write_block(
            s,
            g.block_index(lane, g.column(slice, index)),
            step_block(g, s, pass, slice, lane, index),
        ),
        step_block(g, s, pass, slice, lane, index).len() == 128,
{
    reveal(step);
    let column = g.column(slice, index);
    let j = pseudo_random(g, s, pass, slice, lane, index);
    lemma_next_block_len(
        block_at(s, g.block_index(lane, g.previous_column(column))),
        block_at(s, reference_block(g, pass, slice, lane, index, j)),
        block_at(s, g.block_index(lane, column)),
        accumulates(g, pass),
    );
}

/// Computes the pseudo-random values number `counter` of a segment.
fn address_block_of(g: &Geometry, pass: u32, lane: usize, slice: usize, counter: usize) -> (a: [u64;
    128])
    requires
        g.wf(),
    ensures
        a@ == address_block(*g, pass as int, lane as int, slice as int, counter as int),
{
    let zero: [u64; 128] = [0;128];
    let mut input: [u64; 128] = [0;128];
    input[0] = pass as u64;
    input[1] = lane as u64;
    input[2] = slice as u64;
    input[3] = g.blocks as u64;
    input[4] = g.passes as u64;
    input[5] = g.algorithm.code() as u64;
    input[6] = counter as u64;
    assert(zero@ =~= zero_block());
    assert(input@ =~= address_input(
        *g,
        pass as int,
        lane as int,
        slice as int,
        counter as int,
    ));
    let first = compress_blocks(&zero, &input);
    compress_blocks(&zero, &first)
}

/// Computes one block. Under data-independent addressing the caller hands
/// in the pseudo-random value of the step; else it is read from the memory.
fn apply_step(
    g: &Geometry,
    mem: &mut Vec<u64>,
    pass: u32,
    slice: usize,
    lane: usize,
    index: usize,
    drawn: Option<u64>,
)
    requires
        is_step(*g, pass as int, slice as int, index as int),
        old(mem)@.len() == g.words(),
        lane < g.lanes,
        data_independent(g.algorithm, pass as int, slice as int) ==> drawn == Some(
            address_block(*g, pass as int, lane as int, slice as int, index / 128 + 1)[(index
                % 128) as int],
        ),
        !data_independent(g.algorithm, pass as int, slice as int) ==> drawn is None,
    ensures
        final(mem)@ == step(*g, old(mem)@, pass as int, slice as int, lane as int, index as int),
        final(mem)@.len() == g.words(),
{
    let words: usize = mem.len();
    let with_xor: bool = match g.version {
        Version::V0x13 => pass > 0,
        Version::V0x10 => false,
    };
    proof {
        lemma_column_in_lane(*g, slice as int, index as int);
        lemma_block_in_memory(*g, lane as int, 0);
    }
    let column: usize = slice * g.segment_length + index;
    let previous_column: usize = if column == 0 {
        g.lane_length - 1
    } else {
        column - 1
    };
    proof {
        lemma_block_in_memory(*g, lane as int, column as int);
        lemma_block_in_memory(*g, lane as int, previous_column as int);
    }
    let lane_base: usize = lane * g.lane_length;
    let previous: usize = lane_base + previous_column;
    let current: usize = lane_base + column;
    let j: u64 = match drawn {
        Some(value) => value,
        None => mem[128 * previous],
    };
    let ref_lane = reference_lane_of(g, pass, slice, lane, j);
    let ref_column = reference_column_of(
        g,
        pass,
        slice,
        index,
        j % 0x1_0000_0000,
        ref_lane == lane,
    );
    proof {
        lemma_block_in_memory(*g, ref_lane as int, ref_column as int);
        reveal(step);
    }
    let reference: usize = ref_lane * g.lane_length + ref_column;
    fill_block(mem, previous, reference, current, with_xor);
}

/// Computes block `index` of segment `slice` of lane `lane` in pass `pass`
/// and leaves every other block as it was.
pub fn step_in_place(
    g: &Geometry,
    mem: &mut Vec<u64>,
    pass: u32,
    slice: usize,
    lane: usize,
    index: usize,
)
    requires
        is_step(*g, pass as int, slice as int, index as int),
        old(mem)@.len() == g.words(),
        lane < g.lanes,
    ensures
        final(mem)@ == step(*g, old(mem)@, pass as int, slice as int, lane as int, index as int),
        final(mem)@.len() == g.words(),
{
    let drawn: Option<u64> = if is_data_independent(g.algorithm, pass, slice) {
        let addresses = address_block_of(g, pass, lane, slice, index / 128 + 1);
        Some(addresses[index % 128])
    } else {
        None
    };
    apply_step(g, mem, pass, slice, lane, index, drawn);
}

/// Computes the blocks of one segment of one lane, in order.
pub fn fill_segment_in_place(
    g: &Geometry,
    mem: &mut Vec<u64>,
    pass: u32,
    slice: usize,
    lane: usize,
)
    requires
        g.wf(),
        old(mem)@.len() == g.words(),
        slice < 4,
        lane < g.lanes,
    ensures
        final(mem)@ == fill_segment(
            *g,
            old(mem)@,
            pass as int,
            slice as int,
            lane as int,
            g.segment_length as int,
        ),
        final(mem)@.len() == g.words(),
{
    let independent = is_data_independent(g.algorithm, pass, slice);
    let start: usize = if pass == 0 && slice == 0 {
        2
    } else {
        0
    };
    let mut addresses: [u64; 128] = [0;128];
    let mut index: usize = start;
    while index < g.segment_length
        invariant
            g.wf(),
            slice < 4,
            lane < g.lanes,
            start == first_index(pass as int, slice as int),
            start <= index <= g.segment_length,
            mem@.len() == g.words(),
            independent == data_independent(g.algorithm, pass as int, slice as int),
            mem@ == fill_segment(
                *g,
                old(mem)@,
                pass as int,
                slice as int,
                lane as int,
                index as int,
            ),
            independent && index != start && index % 128 != 0 ==> addresses@ == address_block(
                *g,
                pass as int,
                lane as int,
                slice as int,
                index / 128 + 1,
            ),
        decreases g.segment_length - index,
    {
        if independent && (index == start || index % 128 == 0) {
            addresses = address_block_of(g, pass, lane, slice, index / 128 + 1);
        }
        let drawn: Option<u64> = if independent {
            Some(addresses[index % 128])
        } else {
            None
        };
        apply_step(g, mem, pass, slice, lane, index, drawn);
        index = index + 1;
    }
}

/// Computes segment `slice` of every lane, lane after lane.
pub fn fill_slice_in_place(g: &Geometry, mem: &mut Vec<u64>, pass: u32, slice: usize)
    requires
        g.wf(),
        old(mem)@.len() == g.words(),
        slice < 4,
    ensures
        final(mem)@ == fill_slice(*g, old(mem)@, pass as int, slice as int, g.lanes as int),
        final(mem)@.len() == g.words(),
{
    let mut lane: usize = 0;
    while lane < g.lanes
        invariant
            g.wf(),
            slice < 4,
            lane <= g.lanes,
            mem@.len() == g.words(),
            mem@ == fill_slice(*g, old(mem)@, pass as int, slice as int, lane as int),
        decreases g.lanes - lane,
    {
        fill_segment_in_place(g, mem, pass, slice, lane);
        lane = lane + 1;
    }
}

/// Computes one pass: the four segments, each in every lane before the
/// next begins.
pub fn fill_pass_in_place(g: &Geometry, mem: &mut Vec<u64>, pass: u32)
    requires
        g.wf(),
        old(mem)@.len() == g.words(),
    ensures
        final(mem)@ == fill_pass(*g, old(mem)@, pass as int, 4),
        final(mem)@.len() == g.words(),
{
    let mut slice: usize = 0;
    while slice < 4
        invariant
            g.wf(),
            slice <= 4,
            mem@.len() == g.words(),
            mem@ == fill_pass(*g, old(mem)@, pass as int, slice as int),
        decreases 4 - slice,
    {
        fill_slice_in_place(g, mem, pass, slice);
        slice = slice + 1;
    }
}

/// Computes all passes over a memory whose first two blocks of every lane
/// are seeded.
pub fn fill_in_place(g: &Geometry, mem: &mut Vec<u64>)
    requires
        g.wf(),
        old(mem)@.len() == g.words(),
    ensures
        final(mem)@ == fill(*g, old(mem)@),
        final(mem)@.len() == g.words(),
{
    let mut pass: u32 = 0;
    while pass < g.passes
        invariant
            g.wf(),
            pass <= g.passes,
            mem@.len() == g.words(),
            mem@ == fill_passes(*g, old(mem)@, pass as int),
        decreases g.passes - pass,
    {
        fill_pass_in_place(g, mem, pass);
        pass = pass + 1;
    }
}

} // verus!
