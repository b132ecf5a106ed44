//! The indexing function: which earlier block a step takes as its
//! reference.

use crate::geometry::{lemma_column_in_lane, lemma_lane_length_bound, Geometry};
use crate::params::Algorithm;
use vstd::arithmetic::div_mod::{lemma_mod_bound, lemma_mod_sub_multiples_vanish, lemma_small_mod};
use vstd::prelude::*;

verus! {

/// Whether the steps of segment `slice` of pass `pass` take their
/// pseudo-random values from a counter, not from the memory: always for
/// Argon2i, never for Argon2d, in the first half of the first pass for
/// Argon2id.
pub open spec fn data_independent(algorithm: Algorithm, pass: int, slice: int) -> bool {
    match algorithm {
        Algorithm::Argon2d => false,
        Algorithm::Argon2i => true,
        Algorithm::Argon2id => pass == 0 && slice < 2,
    }
}

/// The first block of a segment that a step computes. The first two blocks
/// of every lane are seeded, not computed.
pub open spec fn first_index(pass: int, slice: int) -> int {
    if pass == 0 && slice == 0 {
        2
    } else {
        0
    }
}

/// The step that computes block `index` of segment `slice` in pass `pass`
/// is one that the derivation makes.
pub open spec fn is_step(g: Geometry, pass: int, slice: int, index: int) -> bool {
    &&& g.wf()
    &&& 0 <= pass
    &&& 0 <= slice < 4
    &&& first_index(pass, slice) <= index < g.segment_length
}

/// The number of blocks of a lane among which the reference is chosen.
///
/// In the first pass these are the segments already finished; in a later
/// pass the three segments last written. In the lane of the step itself the
/// blocks of the current segment that are already computed are added, but
/// for the previous block. In another lane, the first step of a segment
/// leaves out the last block.
pub open spec fn area_size(g: Geometry, pass: int, slice: int, index: int, same_lane: bool) -> int {
    let finished = if pass == 0 {
        slice * g.segment_length
    } else {
        g.lane_length - g.segment_length
    };
    if same_lane {
        finished + index - 1
    } else if index == 0 {
        finished - 1
    } else {
        finished
    }
}

/// The column at which the blocks to choose from begin: in a later pass,
/// the start of the segment after the current one.
pub open spec fn area_start(g: Geometry, pass: int, slice: int) -> int {
    if pass != 0 && slice != 3 {
        (slice + 1) * g.segment_length
    } else {
        0
    }
}

/// Maps the 32-bit value `j1` into the `size` blocks to choose from, the
/// more recent ones being the more likely:
/// `size - 1 - (size * (j1^2 / 2^32)) / 2^32`.
pub open spec fn relative_position(size: int, j1: int) -> int {
    size - 1 - (size * ((j1 * j1) / 0x1_0000_0000)) / 0x1_0000_0000
}

/// The column of the reference block in its lane.
pub open spec fn reference_column(
    g: Geometry,
    pass: int,
    slice: int,
    index: int,
    j1: int,
    same_lane: bool,
) -> int {
    (area_start(g, pass, slice) + relative_position(
        area_size(g, pass, slice, index, same_lane),
        j1,
    )) % (g.lane_length as int)
}

/// The lane of the reference block: the lane of the step in the first
/// segment of the first pass, afterwards the one that the upper half of the
/// pseudo-random value `j` selects.
pub open spec fn reference_lane(g: Geometry, pass: int, slice: int, lane: int, j: u64) -> int {
    if pass == 0 && slice == 0 {
        lane
    } else {
        ((j as int) / 0x1_0000_0000) % (g.lanes as int)
    }
}

/// Column `column` may serve as reference for the step.
///
/// In the lane of the step it is neither the block being written, nor the
/// one before it, nor a later block of the current segment. In another lane
/// it lies outside the current segment, which that lane may be writing. In
/// the first pass it lies before the end of the current segment, so that
/// nothing is read that has not been written.
pub open spec fn referable(
    g: Geometry,
    pass: int,
    slice: int,
    index: int,
    same_lane: bool,
    column: int,
) -> bool {
    let current = g.column(slice, index);
    let segment_start = slice * g.segment_length;
    let segment_end = segment_start + g.segment_length;
    &&& 0 <= column < g.lane_length
    &&& if same_lane {
        !(current - 1 <= column < segment_end) && (current == 0 ==> column != g.lane_length - 1)
    } else {
        !(segment_start <= column < segment_end)
    }
    &&& pass == 0 ==> column < segment_end
}

/// The relative position is one of the `size` blocks, and the products on
/// the way to it fit in 64 bits.
pub proof fn lemma_relative_position(size: int, j1: int)
    requires
        1 <= size <= 0xffff_ffff,
        0 <= j1 <= 0xffff_ffff,
    ensures
        0 <= j1 * j1 <= 0xffff_fffe_0000_0001,
        0 <= (j1 * j1) / 0x1_0000_0000 <= 0xffff_fffe,
        0 <= size * ((j1 * j1) / 0x1_0000_0000) <= size * 0x1_0000_0000 - size,
        0 <= relative_position(size, j1) < size,
{
    assert(0 <= j1 * j1 <= 0xffff_fffe_0000_0001) by (nonlinear_arith)
        requires
            0 <= j1 <= 0xffff_ffff,
    ;
    let x = (j1 * j1) / 0x1_0000_0000;
    assert(0 <= x <= 0xffff_fffe);
    assert(0 <= size * x <= size * 0x1_0000_0000 - size) by (nonlinear_arith)
        requires
            1 <= size,
            0 <= x <= 0xffff_fffe,
    ;
}

/// The indexing function never selects a block that the step may not read:
/// the reference column is referable, whatever the pseudo-random value.
pub proof fn lemma_reference_is_referable(
    g: Geometry,
    pass: int,
    slice: int,
    index: int,
    j1: int,
    same_lane: bool,
)
    requires
        is_step(g, pass, slice, index),
        0 <= j1 <= 0xffff_ffff,
        pass == 0 && slice == 0 ==> same_lane,
    ensures
        1 <= area_size(g, pass, slice, index, same_lane) <= g.lane_length,
        0 <= area_start(g, pass, slice) < g.lane_length,
        referable(
            g,
            pass,
            slice,
            index,
            same_lane,
            reference_column(g, pass, slice, index, j1, same_lane),
        ),
{
    lemma_column_in_lane(g, slice, index);
    lemma_lane_length_bound(g);
    let size = area_size(g, pass, slice, index, same_lane);
    let start = area_start(g, pass, slice);
    let len = g.lane_length as int;
    assert(1 <= size <= len);
    lemma_relative_position(size, j1);
    let a = start + relative_position(size, j1);
    assert(0 <= a < 2 * len);
    if a < len {
        lemma_small_mod(a as nat, len as nat);
    } else {
        lemma_mod_sub_multiples_vanish(a, len);
        lemma_small_mod((a - len) as nat, len as nat);
    }
}

/// Whether the steps of the segment take their pseudo-random values from a
/// counter.
pub fn is_data_independent(algorithm: Algorithm, pass: u32, slice: usize) -> (r: bool)
    ensures
        r == data_independent(algorithm, pass as int, slice as int),
{
    match algorithm {
        Algorithm::Argon2d => false,
        Algorithm::Argon2i => true,
        Algorithm::Argon2id => pass == 0 && slice < 2,
    }
}

/// Computes the lane of the reference block.
pub fn reference_lane_of(g: &Geometry, pass: u32, slice: usize, lane: usize, j: u64) -> (r: usize)
    requires
        g.wf(),
        lane < g.lanes,
    ensures
        r == reference_lane(*g, pass as int, slice as int, lane as int, j),
        r < g.lanes,
{
    if pass == 0 && slice == 0 {
        lane
    } else {
        ((j / 0x1_0000_0000) % (g.lanes as u64)) as usize
    }
}

/// Computes the column of the reference block in its lane from the lower
/// half `j1` of the pseudo-random value.
pub fn reference_column_of(
    g: &Geometry,
    pass: u32,
    slice: usize,
    index: usize,
    j1: u64,
    same_lane: bool,
) -> (column: usize)
    requires
        is_step(*g, pass as int, slice as int, index as int),
        j1 <= 0xffff_ffff,
        pass == 0 && slice == 0 ==> same_lane,
    ensures
        column == reference_column(
            *g,
            pass as int,
            slice as int,
            index as int,
            j1 as int,
            same_lane,
        ),
        referable(*g, pass as int, slice as int, index as int, same_lane, column as int),
{
    proof {
        lemma_column_in_lane(*g, slice as int, index as int);
        lemma_lane_length_bound(*g);
        lemma_reference_is_referable(
            *g,
            pass as int,
            slice as int,
            index as int,
            j1 as int,
            same_lane,
        );
        lemma_relative_position(
            area_size(*g, pass as int, slice as int, index as int, same_lane),
            j1 as int,
        );
    }
    let segment_length: u64 = g.segment_length as u64;
    let lane_length: u64 = g.lane_length as u64;
    let finished: u64 = if pass == 0 {
        (slice as u64) * segment_length
    } else {
        lane_length - segment_length
    };
    let size: u64 = if same_lane {
        finished + (index as u64) - 1
    } else if index == 0 {
        finished - 1
    } else {
        finished
    };
    let x: u64 = (j1 * j1) / 0x1_0000_0000;
    let y: u64 = (size * x) / 0x1_0000_0000;
    let relative: u64 = size - 1 - y;
    let start: u64 = if pass != 0 && slice != 3 {
        (slice as u64 + 1) * segment_length
    } else {
        0
    };
    ((start + relative) % lane_length) as usize
}

/// The lane of a reference block is a lane of the memory.
pub proof fn lemma_reference_lane_in_range(g: Geometry, pass: int, slice: int, lane: int, j: u64)
    requires
        g.wf(),
        0 <= lane < g.lanes,
    ensures
        0 <= reference_lane(g, pass, slice, lane, j) < g.lanes,
{
    lemma_mod_bound((j as int) / 0x1_0000_0000, g.lanes as int);
}

} // verus!
