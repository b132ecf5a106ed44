//! No block is read before it is written.
//!
//! The first pass computes every block of the memory but the two that seed
//! each lane, and a step of the first pass reads only blocks that are seeded
//! or already computed. So what the memory held before, apart from the
//! seeds, has no part in what it holds afterwards.

use crate::block::{block_at, lemma_write_block_other, lemma_write_block_same, write_block};
use crate::bytes::le32;
use crate::derive::{seed_block, seed_lanes};
use crate::fill::{
    accumulates, fill, fill_pass, fill_passes, fill_segment, fill_slice, lemma_fill_pass_len,
    lemma_fill_segment_len, lemma_fill_slice_len, lemma_step_writes, pseudo_random,
    reference_block, step, step_block,
};
use crate::geometry::{
    lemma_block_has_a_place, lemma_block_in_memory, lemma_column_in_lane, lemma_lane_length_bound,
    lemma_lanes_apart, Geometry,
};
use crate::hlong::lemma_long_digest_len;
use crate::index::{
    first_index, is_step, lemma_reference_is_referable, lemma_reference_lane_in_range,
    reference_column, reference_lane,
};
use vstd::prelude::*;

verus! {

/// The two memories hold the same blocks in the first `written(lane)`
/// columns of every lane.
pub open spec fn same_written(
    g: Geometry,
    m1: Seq<u64>,
    m2: Seq<u64>,
    written: spec_fn(int) -> int,
) -> bool {
    &&& m1.len() == m2.len()
    &&& forall|lane: int, column: int|
        0 <= lane < g.lanes && 0 <= column < written(lane) && column < g.lane_length ==> block_at(
            m1,
            #[trigger] g.block_index(lane, column),
        ) == block_at(m2, g.block_index(lane, column))
}

/// How many columns of lane `l` are written in the first pass when the
/// first `lanes` lanes have computed segment `slice`, the next lane has
/// reached block `upto` of it, and the others have yet to begin it.
pub open spec fn written_in_turn(g: Geometry, slice: int, lanes: int, upto: int, l: int) -> int {
    if l < lanes {
        (slice + 1) * g.segment_length
    } else if l == lanes {
        slice * g.segment_length + upto
    } else {
        slice * g.segment_length + first_index(0, slice)
    }
}

/// A step of the first pass reads written blocks only: in two memories that
/// agree where blocks are written it computes the same block.
pub proof fn lemma_first_pass_step_block(
    g: Geometry,
    m1: Seq<u64>,
    m2: Seq<u64>,
    slice: int,
    lane: int,
    index: int,
    written: spec_fn(int) -> int,
)
    requires
        is_step(g, 0, slice, index),
        m1.len() == g.words(),
        0 <= lane < g.lanes,
        same_written(g, m1, m2, written),
        written(lane) == g.column(slice, index),
        forall|l: int| 0 <= l < g.lanes ==> #[trigger] written(l) >= slice * g.segment_length,
    ensures
        step_block(g, m1, 0, slice, lane, index) == step_block(g, m2, 0, slice, lane, index),
{
    let column = g.column(slice, index);
    let previous_column = g.previous_column(column);
    let previous = g.block_index(lane, previous_column);
    lemma_column_in_lane(g, slice, index);
    lemma_block_in_memory(g, lane, column);
    lemma_block_in_memory(g, lane, previous_column);
    if slice > 0 {
        lemma_column_in_lane(g, slice - 1, 0);
    }
    assert(previous_column == column - 1);
    assert(block_at(m1, previous) == block_at(m2, previous));
    let j = pseudo_random(g, m1, 0, slice, lane, index);
    assert(j == pseudo_random(g, m2, 0, slice, lane, index)) by {
        assert(m1[128 * previous] == block_at(m1, previous)[0]);
        assert(m2[128 * previous] == block_at(m2, previous)[0]);
    }
    let ref_lane = reference_lane(g, 0, slice, lane, j);
    let j1 = (j as int) % 0x1_0000_0000;
    let ref_column = reference_column(g, 0, slice, index, j1, ref_lane == lane);
    let reference = g.block_index(ref_lane, ref_column);
    lemma_reference_lane_in_range(g, 0, slice, lane, j);
    lemma_reference_is_referable(g, 0, slice, index, j1, ref_lane == lane);
    lemma_block_in_memory(g, ref_lane, ref_column);
    assert(reference == reference_block(g, 0, slice, lane, index, j));
    assert(written(ref_lane) >= slice * g.segment_length);
    assert(block_at(m1, reference) == block_at(m2, reference));
    assert(!accumulates(g, 0));
}

/// A step of the first pass keeps two memories in agreement where blocks
/// are written, and adds the block it computes to them.
pub proof fn lemma_first_pass_step(
    g: Geometry,
    m1: Seq<u64>,
    m2: Seq<u64>,
    slice: int,
    lane: int,
    index: int,
    written: spec_fn(int) -> int,
)
    requires
        is_step(g, 0, slice, index),
        m1.len() == g.words(),
        0 <= lane < g.lanes,
        same_written(g, m1, m2, written),
        written(lane) == g.column(slice, index),
        forall|l: int| 0 <= l < g.lanes ==> #[trigger] written(l) >= slice * g.segment_length,
    ensures
        same_written(
            g,
            step(g, m1, 0, slice, lane, index),
            step(g, m2, 0, slice, lane, index),
            |l: int|
                if l == lane {
                    written(lane) + 1
                } else {
                    written(l)
                },
        ),
{
    let after = |l: int|
        if l == lane {
            written(lane) + 1
        } else {
            written(l)
        };
    let column = g.column(slice, index);
    let current = g.block_index(lane, column);
    let b = step_block(g, m1, 0, slice, lane, index);
    lemma_first_pass_step_block(g, m1, m2, slice, lane, index, written);
    lemma_step_writes(g, m1, 0, slice, lane, index);
    lemma_step_writes(g, m2, 0, slice, lane, index);
    let s1 = write_block(m1, current, b);
    let s2 = write_block(m2, current, b);
    lemma_column_in_lane(g, slice, index);
    lemma_block_in_memory(g, lane, column);
    assert forall|l: int, c: int|
        0 <= l < g.lanes && 0 <= c < after(l) && c < g.lane_length implies block_at(
        s1,
        #[trigger] g.block_index(l, c),
    ) == block_at(s2, g.block_index(l, c)) by {
        let k = g.block_index(l, c);
        lemma_block_in_memory(g, l, c);
        if l == lane {
            if k == current {
                lemma_write_block_same(m1, current, b);
                lemma_write_block_same(m2, current, b);
            } else {
                lemma_write_block_other(m1, current, b, k);
                lemma_write_block_other(m2, current, b, k);
            }
        } else {
            if l < lane {
                lemma_lanes_apart(g, l, lane);
            } else {
                lemma_lanes_apart(g, lane, l);
            }
            lemma_write_block_other(m1, current, b, k);
            lemma_write_block_other(m2, current, b, k);
        }
    }
}

/// While the first pass computes a segment of a lane, two memories stay in
/// agreement where blocks are written.
pub proof fn lemma_first_pass_segment(
    g: Geometry,
    m1: Seq<u64>,
    m2: Seq<u64>,
    slice: int,
    lane: int,
    upto: int,
)
    requires
        g.wf(),
        m1.len() == g.words(),
        0 <= slice < 4,
        0 <= lane < g.lanes,
        first_index(0, slice) <= upto <= g.segment_length,
        same_written(
            g,
            m1,
            m2,
            |l: int| written_in_turn(g, slice, lane, first_index(0, slice), l),
        ),
    ensures
        same_written(
            g,
            fill_segment(g, m1, 0, slice, lane, upto),
            fill_segment(g, m2, 0, slice, lane, upto),
            |l: int| written_in_turn(g, slice, lane, upto, l),
        ),
    decreases upto,
{
    let first = first_index(0, slice);
    if upto > first {
        let index = upto - 1;
        lemma_first_pass_segment(g, m1, m2, slice, lane, index);
        let f1 = fill_segment(g, m1, 0, slice, lane, index);
        let f2 = fill_segment(g, m2, 0, slice, lane, index);
        lemma_fill_segment_len(g, m1, 0, slice, lane, index);
        let written = |l: int| written_in_turn(g, slice, lane, index, l);
        lemma_column_in_lane(g, slice, index);
        assert forall|l: int| 0 <= l < g.lanes implies #[trigger] written(l) >= slice
            * g.segment_length by {}
        lemma_first_pass_step(g, f1, f2, slice, lane, index, written);
        let s1 = step(g, f1, 0, slice, lane, index);
        let s2 = step(g, f2, 0, slice, lane, index);
        assert(s1 == fill_segment(g, m1, 0, slice, lane, upto));
        assert(s2 == fill_segment(g, m2, 0, slice, lane, upto));
        let after = |l: int|
            if l == lane {
                written(lane) + 1
            } else {
                written(l)
            };
        assert(same_written(g, s1, s2, after));
        assert forall|l: int, c: int|
            0 <= l < g.lanes && 0 <= c < written_in_turn(g, slice, lane, upto, l) && c
                < g.lane_length implies block_at(s1, #[trigger] g.block_index(l, c)) == block_at(
            s2,
            g.block_index(l, c),
        ) by {
            assert(after(l) == written_in_turn(g, slice, lane, upto, l));
        }
    }
}

/// While the first pass computes a segment lane after lane, two memories
/// stay in agreement where blocks are written.
pub proof fn lemma_first_pass_slice(
    g: Geometry,
    m1: Seq<u64>,
    m2: Seq<u64>,
    slice: int,
    lanes: int,
)
    requires
        g.wf(),
        m1.len() == g.words(),
        0 <= slice < 4,
        0 <= lanes <= g.lanes,
        same_written(g, m1, m2, |l: int| written_in_turn(g, slice, 0, first_index(0, slice), l)),
    ensures
        same_written(
            g,
            fill_slice(g, m1, 0, slice, lanes),
            fill_slice(g, m2, 0, slice, lanes),
            |l: int| written_in_turn(g, slice, lanes, first_index(0, slice), l),
        ),
    decreases lanes,
{
    let first = first_index(0, slice);
    if lanes > 0 {
        let lane = lanes - 1;
        lemma_first_pass_slice(g, m1, m2, slice, lane);
        let f1 = fill_slice(g, m1, 0, slice, lane);
        let f2 = fill_slice(g, m2, 0, slice, lane);
        lemma_fill_slice_len(g, m1, 0, slice, lane);
        lemma_first_pass_segment(g, f1, f2, slice, lane, g.segment_length as int);
        let s1 = fill_segment(g, f1, 0, slice, lane, g.segment_length as int);
        let s2 = fill_segment(g, f2, 0, slice, lane, g.segment_length as int);
        assert(s1 == fill_slice(g, m1, 0, slice, lanes));
        assert(s2 == fill_slice(g, m2, 0, slice, lanes));
        lemma_column_in_lane(g, slice, 0);
        assert forall|l: int, c: int|
            0 <= l < g.lanes && 0 <= c < written_in_turn(g, slice, lanes, first, l) && c
                < g.lane_length implies block_at(s1, #[trigger] g.block_index(l, c)) == block_at(
            s2,
            g.block_index(l, c),
        ) by {
            assert(written_in_turn(g, slice, lane, g.segment_length as int, l) == written_in_turn(
                g,
                slice,
                lanes,
                first,
                l,
            ));
        }
    }
}

/// While the first pass computes segment after segment, two memories stay
/// in agreement where blocks are written.
pub proof fn lemma_first_pass_slices(g: Geometry, m1: Seq<u64>, m2: Seq<u64>, slices: int)
    requires
        g.wf(),
        m1.len() == g.words(),
        0 <= slices <= 4,
        same_written(g, m1, m2, |l: int| 2int),
    ensures
        same_written(
            g,
            fill_pass(g, m1, 0, slices),
            fill_pass(g, m2, 0, slices),
            |l: int|
                if slices == 0 {
                    2int
                } else {
                    slices * g.segment_length
                },
        ),
    decreases slices,
{
    if slices > 0 {
        let slice = slices - 1;
        lemma_first_pass_slices(g, m1, m2, slice);
        let f1 = fill_pass(g, m1, 0, slice);
        let f2 = fill_pass(g, m2, 0, slice);
        lemma_fill_pass_len(g, m1, 0, slice);
        lemma_column_in_lane(g, slice, 0);
        assert forall|l: int, c: int|
            0 <= l < g.lanes && 0 <= c < written_in_turn(g, slice, 0, first_index(0, slice), l)
                && c < g.lane_length implies block_at(f1, #[trigger] g.block_index(l, c))
            == block_at(f2, g.block_index(l, c)) by {}
        lemma_first_pass_slice(g, f1, f2, slice, g.lanes as int);
        let s1 = fill_slice(g, f1, 0, slice, g.lanes as int);
        let s2 = fill_slice(g, f2, 0, slice, g.lanes as int);
        assert(s1 == fill_pass(g, m1, 0, slices));
        assert(s2 == fill_pass(g, m2, 0, slices));
        assert forall|l: int, c: int|
            0 <= l < g.lanes && 0 <= c < slices * g.segment_length && c
                < g.lane_length implies block_at(s1, #[trigger] g.block_index(l, c)) == block_at(
            s2,
            g.block_index(l, c),
        ) by {
            assert(written_in_turn(g, slice, g.lanes as int, first_index(0, slice), l) == slices
                * g.segment_length);
        }
    }
}

/// No block is read before it is written: two memories that agree in the
/// first two blocks of every lane are the same memory after the first
/// pass, and so after all passes.
pub proof fn lemma_fill_reads_only_what_is_written(g: Geometry, m1: Seq<u64>, m2: Seq<u64>)
    requires
        g.wf(),
        m1.len() == g.words(),
        same_written(g, m1, m2, |l: int| 2int),
    ensures
        fill(g, m1) == fill(g, m2),
{
    lemma_first_pass_slices(g, m1, m2, 4);
    let p1 = fill_pass(g, m1, 0, 4);
    let p2 = fill_pass(g, m2, 0, 4);
    lemma_fill_pass_len(g, m1, 0, 4);
    lemma_fill_pass_len(g, m2, 0, 4);
    assert forall|k: int| 0 <= k < p1.len() implies p1[k] == p2[k] by {
        let block = k / 128;
        lemma_block_has_a_place(g, block);
        let lane = block / (g.lane_length as int);
        let column = block % (g.lane_length as int);
        assert(block_at(p1, g.block_index(lane, column)) == block_at(
            p2,
            g.block_index(lane, column),
        ));
        assert(p1[k] == block_at(p1, block)[k - 128 * block]);
        assert(p2[k] == block_at(p2, block)[k - 128 * block]);
    }
    assert(p1 =~= p2);
    assert(fill_passes(g, m1, 0) == m1);
    assert(fill_passes(g, m2, 0) == m2);
    assert(fill_passes(g, m1, 1) == p1);
    assert(fill_passes(g, m2, 1) == p2);
    lemma_later_passes(g, m1, m2, g.passes as int);
}

/// Memories that are the same after the first pass are the same after any
/// number of passes.
pub proof fn lemma_later_passes(g: Geometry, m1: Seq<u64>, m2: Seq<u64>, passes: int)
    requires
        passes >= 1,
        fill_passes(g, m1, 1) == fill_passes(g, m2, 1),
    ensures
        fill_passes(g, m1, passes) == fill_passes(g, m2, passes),
    decreases passes,
{
    if passes > 1 {
        lemma_later_passes(g, m1, m2, passes - 1);
    }
}

/// Seeding writes the first two blocks of every lane, whatever the memory
/// held: the seeds of two memories of the same size agree.
pub proof fn lemma_seeds_agree(g: Geometry, m1: Seq<u64>, m2: Seq<u64>, h0: Seq<u8>, lanes: int)
    requires
        g.wf(),
        m1.len() == g.words(),
        m2.len() == g.words(),
        0 <= lanes <= g.lanes,
    ensures
        seed_lanes(g, m1, h0, lanes).len() == g.words(),
        seed_lanes(g, m2, h0, lanes).len() == g.words(),
        forall|lane: int, column: int|
            0 <= lane < lanes && 0 <= column < 2 ==> block_at(
                seed_lanes(g, m1, h0, lanes),
                #[trigger] g.block_index(lane, column),
            ) == block_at(seed_lanes(g, m2, h0, lanes), g.block_index(lane, column)),
    decreases lanes,
{
    if lanes > 0 {
        let lane = lanes - 1;
        lemma_seeds_agree(g, m1, m2, h0, lane);
        let a1 = seed_lanes(g, m1, h0, lane);
        let a2 = seed_lanes(g, m2, h0, lane);
        let i0 = g.block_index(lane, 0);
        let i1 = g.block_index(lane, 1);
        let b0 = seed_block(h0, lane, 0);
        let b1 = seed_block(h0, lane, 1);
        lemma_lane_length_bound(g);
        lemma_block_in_memory(g, lane, 0);
        lemma_block_in_memory(g, lane, 1);
        lemma_long_digest_len(h0 + le32(0u32) + le32(lane as u32), 1024);
        lemma_long_digest_len(h0 + le32(1u32) + le32(lane as u32), 1024);
        let s1 = write_block(write_block(a1, i0, b0), i1, b1);
        let s2 = write_block(write_block(a2, i0, b0), i1, b1);
        assert(s1 == seed_lanes(g, m1, h0, lanes));
        assert(s2 == seed_lanes(g, m2, h0, lanes));
        assert forall|l: int, c: int| 0 <= l < lanes && 0 <= c < 2 implies block_at(
            s1,
            #[trigger] g.block_index(l, c),
        ) == block_at(s2, g.block_index(l, c)) by {
            let k = g.block_index(l, c);
            lemma_block_in_memory(g, l, c);
            if l < lane {
                lemma_lanes_apart(g, l, lane);
                lemma_write_block_other(a1, i0, b0, k);
                lemma_write_block_other(a2, i0, b0, k);
                lemma_write_block_other(write_block(a1, i0, b0), i1, b1, k);
                lemma_write_block_other(write_block(a2, i0, b0), i1, b1, k);
            } else if c == 0 {
                lemma_write_block_same(a1, i0, b0);
                lemma_write_block_same(a2, i0, b0);
                lemma_write_block_other(write_block(a1, i0, b0), i1, b1, k);
                lemma_write_block_other(write_block(a2, i0, b0), i1, b1, k);
            } else {
                lemma_write_block_same(write_block(a1, i0, b0), i1, b1);
                lemma_write_block_same(write_block(a2, i0, b0), i1, b1);
            }
        }
    }
}

/// What the memory holds before a derivation has no part in the tag: after
/// seeding and filling, two memories of the right size are the same.
pub proof fn lemma_memory_content_is_immaterial(
    g: Geometry,
    m1: Seq<u64>,
    m2: Seq<u64>,
    h0: Seq<u8>,
)
    requires
        g.wf(),
        m1.len() == g.words(),
        m2.len() == g.words(),
    ensures
        fill(g, seed_lanes(g, m1, h0, g.lanes as int)) == fill(
            g,
            seed_lanes(g, m2, h0, g.lanes as int),
        ),
{
    lemma_seeds_agree(g, m1, m2, h0, g.lanes as int);
    lemma_fill_reads_only_what_is_written(
        g,
        seed_lanes(g, m1, h0, g.lanes as int),
        seed_lanes(g, m2, h0, g.lanes as int),
    );
}

} // verus!
