//! The shape of the working memory: lanes, segments and blocks.

use crate::params::{Algorithm, Argon2, Version};
use crate::validate::MAX_LANES;
use vstd::arithmetic::div_mod::{lemma_fundamental_div_mod, lemma_mod_bound};
use vstd::prelude::*;

verus! {

/// The shape of the memory of one derivation and what else every step reads
/// of the parameters.
///
/// The memory is `lanes` rows of `lane_length` blocks. A lane is cut into
/// four segments of `segment_length` blocks. The memory cost is rounded down
/// to a whole number of segments.
#[derive(Copy, Clone, Debug, PartialEq, Eq, Structural)]
pub struct Geometry {
    pub lanes: usize,
    pub segment_length: usize,
    pub lane_length: usize,
    pub blocks: usize,
    pub passes: u32,
    pub algorithm: Algorithm,
    pub version: Version,
}

impl Geometry {
    /// The fields agree with one another and with the bounds on the
    /// parameters.
    pub open spec fn wf(self) -> bool {
        &&& 1 <= self.lanes <= MAX_LANES
        &&& self.segment_length >= 2
        &&& self.lane_length == 4 * self.segment_length
        &&& self.blocks == self.lanes * self.lane_length
        &&& self.blocks <= 0xffff_ffff
        &&& self.passes >= 1
    }

    /// Blocks in a segment for the given costs: the memory cost divided by
    /// four times the lanes, rounded down.
    pub open spec fn segment_length_of(params: Argon2) -> int {
        (params.m_cost as int) / (4 * params.p_cost)
    }

    /// The shape that the parameters give.
    pub open spec fn spec_of(params: Argon2) -> Geometry {
        let segment_length = Geometry::segment_length_of(params);
        Geometry {
            lanes: params.p_cost as usize,
            segment_length: segment_length as usize,
            lane_length: (4 * segment_length) as usize,
            blocks: (params.p_cost * (4 * segment_length)) as usize,
            passes: params.t_cost,
            algorithm: params.algorithm,
            version: params.version,
        }
    }

    /// Words in the whole memory.
    pub open spec fn words(self) -> int {
        128 * self.blocks
    }

    /// Computes the shape of the memory from parameters whose costs have
    /// been found in range.
    pub fn of(params: &Argon2) -> (g: Geometry)
        requires
            1 <= params.p_cost <= MAX_LANES,
            params.m_cost >= 8 * params.p_cost,
            params.t_cost >= 1,
        ensures
            g == Geometry::spec_of(*params),
            g.wf(),
            g.blocks <= params.m_cost < g.blocks + 4 * params.p_cost,
    {
        let lanes4: u32 = 4 * params.p_cost;
        let segment_length: u32 = params.m_cost / lanes4;
        proof {
            lemma_division_bounds(params.m_cost as int, lanes4 as int);
            lemma_fundamental_div_mod(params.m_cost as int, lanes4 as int);
            lemma_mod_bound(params.m_cost as int, lanes4 as int);
            assert(params.p_cost * (4 * segment_length) == lanes4 * segment_length)
                by (nonlinear_arith)
                requires
                    lanes4 == 4 * params.p_cost,
            ;
            assert(4 * segment_length <= lanes4 * segment_length) by (nonlinear_arith)
                requires
                    lanes4 >= 4,
                    segment_length >= 0,
            ;
        }
        let lane_length: u32 = 4 * segment_length;
        let blocks: u32 = params.p_cost * lane_length;
        Geometry {
            lanes: params.p_cost as usize,
            segment_length: segment_length as usize,
            lane_length: lane_length as usize,
            blocks: blocks as usize,
            passes: params.t_cost,
            algorithm: params.algorithm,
            version: params.version,
        }
    }
}

/// A quotient times its divisor does not exceed the dividend, and is at
/// least 2 where the dividend is at least twice the divisor.
pub proof fn lemma_division_bounds(m: int, d: int)
    by (nonlinear_arith)
    requires
        0 < d,
        0 <= m,
    ensures
        d * (m / d) <= m,
        m >= 2 * d ==> m / d >= 2,
        d <= d * (m / d) || m / d == 0,
{
}

/// Where a block stands in its lane and in the memory.
impl Geometry {
    /// Place in its lane of block `index` of segment `slice`.
    pub open spec fn column(self, slice: int, index: int) -> int {
        slice * self.segment_length + index
    }

    /// Place in the memory of block `column` of lane `lane`.
    pub open spec fn block_index(self, lane: int, column: int) -> int {
        lane * self.lane_length + column
    }

    /// The column before `column` in the same lane; before the first comes
    /// the last.
    pub open spec fn previous_column(self, column: int) -> int {
        if column == 0 {
            self.lane_length - 1
        } else {
            column - 1
        }
    }
}

/// A lane is no longer than the memory, which has fewer than 2^32 blocks.
pub proof fn lemma_lane_length_bound(g: Geometry)
    by (nonlinear_arith)
    requires
        g.wf(),
    ensures
        8 <= g.lane_length <= g.blocks <= 0xffff_ffff,
{
}

/// A column of segment `slice` lies in the lane, inside that segment.
pub proof fn lemma_column_in_lane(g: Geometry, slice: int, index: int)
    by (nonlinear_arith)
    requires
        g.wf(),
        0 <= slice < 4,
        0 <= index < g.segment_length,
    ensures
        slice * g.segment_length <= g.column(slice, index) < (slice + 1) * g.segment_length,
        (slice + 1) * g.segment_length == slice * g.segment_length + g.segment_length,
        0 <= slice * g.segment_length,
        (slice + 1) * g.segment_length <= g.lane_length,
{
}

/// A block of a lane lies in the memory.
pub proof fn lemma_block_in_memory(g: Geometry, lane: int, column: int)
    by (nonlinear_arith)
    requires
        g.wf(),
        0 <= lane < g.lanes,
        0 <= column < g.lane_length,
    ensures
        0 <= lane * g.lane_length,
        lane * g.lane_length + g.lane_length <= g.blocks,
        0 <= g.block_index(lane, column) < g.blocks,
{
}

/// Blocks of different lanes are different blocks: a lower lane ends before
/// a higher one begins.
pub proof fn lemma_lanes_apart(g: Geometry, low: int, high: int)
    by (nonlinear_arith)
    requires
        g.wf(),
        0 <= low < high,
    ensures
        low * g.lane_length + g.lane_length <= high * g.lane_length,
{
}

/// A block of the memory stands in one lane, at one column.
pub proof fn lemma_block_has_a_place(g: Geometry, block: int)
    requires
        g.wf(),
        0 <= block < g.blocks,
    ensures
        0 <= block / (g.lane_length as int) < g.lanes,
        0 <= block % (g.lane_length as int) < g.lane_length,
        block == g.block_index(block / (g.lane_length as int), block % (g.lane_length as int)),
{
    let len = g.lane_length as int;
    lemma_fundamental_div_mod(block, len);
    lemma_mod_bound(block, len);
    let q = block / len;
    assert(len * q == q * len) by (nonlinear_arith);
    assert(0 <= q < g.lanes) by (nonlinear_arith)
        requires
            0 <= block < g.lanes * len,
            block == q * len + block % len,
            0 <= block % len < len,
            len > 0,
    ;
}

} // verus!
