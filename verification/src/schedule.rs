//! The order of the steps inside a segment does not matter.
//!
//! Between two synchronisation points every lane computes one segment. A
//! step reads its own lane and, of the other lanes, only blocks outside the
//! segment being computed. So the steps of different lanes may be
//! interleaved at will, one worker or many: the memory after the segment is
//! the same as when the lanes are computed one after the other.

use crate::block::{
    block_at, lemma_write_block_other, lemma_write_block_same, next_block, write_block,
};
use crate::fill::{
    accumulates, fill, fill_pass, fill_passes, fill_segment, fill_slice, lemma_fill_pass_len,
    lemma_fill_passes_len, lemma_fill_segment_len, lemma_step_writes, pseudo_random,
    reference_block, step, step_block, step_in_place,
};
use crate::geometry::{
    lemma_block_has_a_place, lemma_block_in_memory, lemma_column_in_lane, lemma_lanes_apart,
    Geometry,
};
use crate::index::{
    first_index, lemma_reference_is_referable, lemma_reference_lane_in_range, reference_column,
    reference_lane,
};
use vstd::prelude::*;

verus! {

/// How many of the steps of `schedule` belong to `lane`.
pub open spec fn turns(schedule: Seq<usize>, lane: int) -> int
    decreases schedule.len(),
{
    if schedule.len() == 0 {
        0
    } else {
        turns(schedule.drop_last(), lane) + if schedule.last() == lane {
            1int
        } else {
            0int
        }
    }
}

/// The memory after the steps of `schedule` in segment `slice` of pass
/// `pass`. The schedule names the lane of each step in turn; a lane
/// computes its blocks in order, so its next step is for the block after
/// those it has computed.
pub open spec fn run(g: Geometry, mem: Seq<u64>, pass: int, slice: int, schedule: Seq<usize>) -> Seq<
    u64,
>
    decreases schedule.len(),
{
    if schedule.len() == 0 {
        mem
    } else {
        let earlier = schedule.drop_last();
        let lane = schedule.last() as int;
        step(
            g,
            run(g, mem, pass, slice, earlier),
            pass,
            slice,
            lane,
            first_index(pass, slice) + turns(earlier, lane),
        )
    }
}

/// The schedule names lanes only and gives no lane more steps than its
/// segment has blocks to compute.
pub open spec fn admissible(g: Geometry, pass: int, slice: int, schedule: Seq<usize>) -> bool {
    &&& forall|k: int| 0 <= k < schedule.len() ==> #[trigger] schedule[k] < g.lanes
    &&& forall|lane: int|
        0 <= lane < g.lanes ==> #[trigger] turns(schedule, lane) <= g.segment_length
            - first_index(pass, slice)
}

/// The schedule computes the whole segment of every lane.
pub open spec fn complete(g: Geometry, pass: int, slice: int, schedule: Seq<usize>) -> bool {
    &&& forall|k: int| 0 <= k < schedule.len() ==> #[trigger] schedule[k] < g.lanes
    &&& forall|lane: int|
        0 <= lane < g.lanes ==> #[trigger] turns(schedule, lane) == g.segment_length
            - first_index(pass, slice)
}

/// Every lane of `s` holds what it would hold had it alone computed its
/// segment, from the memory `mem`, up to the block `reached(lane)`.
pub open spec fn lanes_as_alone(
    g: Geometry,
    mem: Seq<u64>,
    pass: int,
    slice: int,
    s: Seq<u64>,
    reached: spec_fn(int) -> int,
) -> bool {
    &&& s.len() == mem.len()
    &&& forall|lane: int, column: int|
        0 <= lane < g.lanes && 0 <= column < g.lane_length ==> block_at(
            s,
            #[trigger] g.block_index(lane, column),
        ) == block_at(
            fill_segment(g, mem, pass, slice, lane, reached(lane)),
            g.block_index(lane, column),
        )
}

/// What a lane computes alone it writes into its own segment: every block
/// outside the part already computed is as before.
pub proof fn lemma_fill_segment_frame(
    g: Geometry,
    mem: Seq<u64>,
    pass: int,
    slice: int,
    lane: int,
    upto: int,
    block: int,
)
    requires
        g.wf(),
        mem.len() == g.words(),
        0 <= pass,
        0 <= slice < 4,
        0 <= lane < g.lanes,
        upto <= g.segment_length,
        0 <= block < g.blocks,
        block < g.block_index(lane, g.column(slice, first_index(pass, slice))) || block
            >= g.block_index(lane, g.column(slice, upto)),
    ensures
        block_at(fill_segment(g, mem, pass, slice, lane, upto), block) == block_at(mem, block),
    decreases upto,
{
    if upto > first_index(pass, slice) {
        let index = upto - 1;
        lemma_fill_segment_frame(g, mem, pass, slice, lane, index, block);
        lemma_fill_segment_len(g, mem, pass, slice, lane, index);
        lemma_column_in_lane(g, slice, index);
        lemma_block_in_memory(g, lane, g.column(slice, index));
        let m = fill_segment(g, mem, pass, slice, lane, index);
        let current = g.block_index(lane, g.column(slice, index));
        let column = g.column(slice, index);
        let previous = g.block_index(lane, g.previous_column(column));
        let j = pseudo_random(g, m, pass, slice, lane, index);
        let reference = reference_block(g, pass, slice, lane, index, j);
        let b = next_block(
            block_at(m, previous),
            block_at(m, reference),
            block_at(m, current),
            accumulates(g, pass),
        );
        assert(fill_segment(g, mem, pass, slice, lane, upto) == write_block(m, current, b)) by {
            reveal(step);
        }
        lemma_write_block_other(m, current, b, block);
    }
}

/// The reference block of a step lies where the memory `s`, whose lanes are
/// as if computed alone, holds what the lane of the step holds when it
/// computes alone: in the lane of the step, or outside the segment being
/// computed.
pub proof fn lemma_reference_agrees(
    g: Geometry,
    mem: Seq<u64>,
    pass: int,
    slice: int,
    s: Seq<u64>,
    reached: spec_fn(int) -> int,
    lane: int,
    j: u64,
)
    requires
        g.wf(),
        mem.len() == g.words(),
        0 <= pass,
        0 <= slice < 4,
        0 <= lane < g.lanes,
        forall|l: int|
            0 <= l < g.lanes ==> first_index(pass, slice) <= #[trigger] reached(l)
                <= g.segment_length,
        reached(lane) < g.segment_length,
        lanes_as_alone(g, mem, pass, slice, s, reached),
    ensures
        block_at(s, reference_block(g, pass, slice, lane, reached(lane), j)) == block_at(
            fill_segment(g, mem, pass, slice, lane, reached(lane)),
            reference_block(g, pass, slice, lane, reached(lane), j),
        ),
{
    let index = reached(lane);
    let ref_lane = reference_lane(g, pass, slice, lane, j);
    let j1 = (j as int) % 0x1_0000_0000;
    let ref_column = reference_column(g, pass, slice, index, j1, ref_lane == lane);
    let reference = g.block_index(ref_lane, ref_column);
    lemma_reference_lane_in_range(g, pass, slice, lane, j);
    lemma_reference_is_referable(g, pass, slice, index, j1, ref_lane == lane);
    lemma_block_in_memory(g, ref_lane, ref_column);
    assert(reference == reference_block(g, pass, slice, lane, index, j));
    if ref_lane != lane {
        let other = fill_segment(g, mem, pass, slice, ref_lane, reached(ref_lane));
        assert(block_at(s, reference) == block_at(other, reference));
        lemma_block_in_memory(g, ref_lane, 0);
        lemma_column_in_lane(g, slice, 0);
        assert(reached(ref_lane) <= g.segment_length);
        lemma_fill_segment_frame(g, mem, pass, slice, ref_lane, reached(ref_lane), reference);
        if ref_lane < lane {
            lemma_lanes_apart(g, ref_lane, lane);
        } else {
            lemma_lanes_apart(g, lane, ref_lane);
        }
        lemma_block_in_memory(g, lane, 0);
        lemma_column_in_lane(g, slice, index);
        lemma_fill_segment_frame(g, mem, pass, slice, lane, index, reference);
    }
}

/// A step computes the same block in the memory `s`, whose lanes are as if
/// computed alone, as in the memory of its lane computing alone.
pub proof fn lemma_step_block_agrees(
    g: Geometry,
    mem: Seq<u64>,
    pass: int,
    slice: int,
    s: Seq<u64>,
    reached: spec_fn(int) -> int,
    lane: int,
)
    requires
        g.wf(),
        mem.len() == g.words(),
        0 <= pass,
        0 <= slice < 4,
        0 <= lane < g.lanes,
        forall|l: int|
            0 <= l < g.lanes ==> first_index(pass, slice) <= #[trigger] reached(l)
                <= g.segment_length,
        reached(lane) < g.segment_length,
        lanes_as_alone(g, mem, pass, slice, s, reached),
    ensures
        step_block(g, s, pass, slice, lane, reached(lane)) == step_block(
            g,
            fill_segment(g, mem, pass, slice, lane, reached(lane)),
            pass,
            slice,
            lane,
            reached(lane),
        ),
{
    let index = reached(lane);
    let f = fill_segment(g, mem, pass, slice, lane, index);
    let column = g.column(slice, index);
    let current = g.block_index(lane, column);
    let previous_column = g.previous_column(column);
    let previous = g.block_index(lane, previous_column);
    lemma_column_in_lane(g, slice, index);
    lemma_block_in_memory(g, lane, column);
    lemma_block_in_memory(g, lane, previous_column);
    lemma_fill_segment_len(g, mem, pass, slice, lane, index);
    assert(block_at(s, previous) == block_at(f, previous));
    assert(block_at(s, current) == block_at(f, current));
    let j = pseudo_random(g, s, pass, slice, lane, index);
    assert(j == pseudo_random(g, f, pass, slice, lane, index)) by {
        assert(s[128 * previous] == block_at(s, previous)[0]);
        assert(f[128 * previous] == block_at(f, previous)[0]);
    }
    lemma_reference_agrees(g, mem, pass, slice, s, reached, lane, j);
}

/// Writing into a memory whose lanes are as if computed alone the block
/// that one lane computes next keeps every lane as if computed alone.
pub proof fn lemma_write_keeps_lanes_alone(
    g: Geometry,
    mem: Seq<u64>,
    pass: int,
    slice: int,
    s: Seq<u64>,
    reached: spec_fn(int) -> int,
    lane: int,
    b: Seq<u64>,
)
    requires
        g.wf(),
        mem.len() == g.words(),
        0 <= slice < 4,
        0 <= lane < g.lanes,
        0 <= reached(lane) < g.segment_length,
        b.len() == 128,
        lanes_as_alone(g, mem, pass, slice, s, reached),
        fill_segment(g, mem, pass, slice, lane, reached(lane) + 1) == write_block(
            fill_segment(g, mem, pass, slice, lane, reached(lane)),
            g.block_index(lane, g.column(slice, reached(lane))),
            b,
        ),
    ensures
        lanes_as_alone(
            g,
            mem,
            pass,
            slice,
            write_block(s, g.block_index(lane, g.column(slice, reached(lane))), b),
            |l: int|
                if l == lane {
                    reached(lane) + 1
                } else {
                    reached(l)
                },
        ),
{
    let index = reached(lane);
    let after = |l: int|
        if l == lane {
            reached(lane) + 1
        } else {
            reached(l)
        };
    let f = fill_segment(g, mem, pass, slice, lane, index);
    let f2 = fill_segment(g, mem, pass, slice, lane, index + 1);
    let column = g.column(slice, index);
    let current = g.block_index(lane, column);
    let s2 = write_block(s, current, b);
    lemma_column_in_lane(g, slice, index);
    lemma_block_in_memory(g, lane, column);
    lemma_fill_segment_len(g, mem, pass, slice, lane, index);
    assert forall|l: int, c: int| 0 <= l < g.lanes && 0 <= c < g.lane_length implies block_at(
        s2,
        #[trigger] g.block_index(l, c),
    ) == block_at(fill_segment(g, mem, pass, slice, l, after(l)), g.block_index(l, c)) by {
        let k = g.block_index(l, c);
        lemma_block_in_memory(g, l, c);
        if l == lane {
            assert(after(l) == index + 1);
            if k == current {
                lemma_write_block_same(s, current, b);
                lemma_write_block_same(f, current, b);
            } else {
                lemma_write_block_other(s, current, b, k);
                lemma_write_block_other(f, current, b, k);
                assert(block_at(s, k) == block_at(f, k));
            }
        } else {
            assert(after(l) == reached(l));
            if l < lane {
                lemma_lanes_apart(g, l, lane);
            } else {
                lemma_lanes_apart(g, lane, l);
            }
            lemma_write_block_other(s, current, b, k);
        }
    }
}

/// One more step of one lane keeps every lane as if it had computed alone.
///
/// The step reads the block before its own and its own, both in its lane,
/// and a reference block. In its own lane the reference is a block that
/// the lane holds as if alone. In another lane it lies outside the segment
/// being computed, where no step of this segment has written.
pub proof fn lemma_step_keeps_lanes_alone(
    g: Geometry,
    mem: Seq<u64>,
    pass: int,
    slice: int,
    s: Seq<u64>,
    reached: spec_fn(int) -> int,
    lane: int,
)
    requires
        g.wf(),
        mem.len() == g.words(),
        0 <= pass,
        0 <= slice < 4,
        0 <= lane < g.lanes,
        forall|l: int|
            0 <= l < g.lanes ==> first_index(pass, slice) <= #[trigger] reached(l)
                <= g.segment_length,
        reached(lane) < g.segment_length,
        lanes_as_alone(g, mem, pass, slice, s, reached),
    ensures
        lanes_as_alone(
            g,
            mem,
            pass,
            slice,
            step(g, s, pass, slice, lane, reached(lane)),
            |l: int|
                if l == lane {
                    reached(lane) + 1
                } else {
                    reached(l)
                },
        ),
{
    let index = reached(lane);
    let f = fill_segment(g, mem, pass, slice, lane, index);
    let b = step_block(g, s, pass, slice, lane, index);
    lemma_step_block_agrees(g, mem, pass, slice, s, reached, lane);
    lemma_step_writes(g, s, pass, slice, lane, index);
    lemma_step_writes(g, f, pass, slice, lane, index);
    assert(fill_segment(g, mem, pass, slice, lane, index + 1) == step(
        g,
        f,
        pass,
        slice,
        lane,
        index,
    ));
    lemma_write_keeps_lanes_alone(g, mem, pass, slice, s, reached, lane, b);
}

/// Two memories whose lanes are each as if computed alone, up to the same
/// blocks, are the same memory.
pub proof fn lemma_lanes_as_alone_is_one_memory(
    g: Geometry,
    mem: Seq<u64>,
    pass: int,
    slice: int,
    s1: Seq<u64>,
    reached1: spec_fn(int) -> int,
    s2: Seq<u64>,
    reached2: spec_fn(int) -> int,
)
    requires
        g.wf(),
        mem.len() == g.words(),
        lanes_as_alone(g, mem, pass, slice, s1, reached1),
        lanes_as_alone(g, mem, pass, slice, s2, reached2),
        forall|l: int| 0 <= l < g.lanes ==> #[trigger] reached1(l) == reached2(l),
    ensures
        s1 == s2,
{
    assert forall|k: int| 0 <= k < s1.len() implies s1[k] == s2[k] by {
        let block = k / 128;
        lemma_block_has_a_place(g, block);
        let lane = block / (g.lane_length as int);
        let column = block % (g.lane_length as int);
        assert(reached1(lane) == reached2(lane));
        assert(block_at(s1, g.block_index(lane, column)) == block_at(
            s2,
            g.block_index(lane, column),
        ));
        assert(s1[k] == block_at(s1, block)[k - 128 * block]);
        assert(s2[k] == block_at(s2, block)[k - 128 * block]);
    }
    assert(s1 =~= s2);
}

/// A lane has no more turns in the earlier part of a schedule than in the
/// whole.
pub proof fn lemma_earlier_is_admissible(g: Geometry, pass: int, slice: int, schedule: Seq<usize>)
    requires
        admissible(g, pass, slice, schedule),
        schedule.len() > 0,
    ensures
        admissible(g, pass, slice, schedule.drop_last()),
        0 <= schedule.last() < g.lanes,
        turns(schedule.drop_last(), schedule.last() as int) < g.segment_length - first_index(
            pass,
            slice,
        ),
{
    let earlier = schedule.drop_last();
    assert(schedule[schedule.len() - 1] == schedule.last());
    assert forall|k: int| 0 <= k < earlier.len() implies #[trigger] earlier[k] < g.lanes by {
        assert(earlier[k] == schedule[k]);
    }
    assert forall|lane: int| 0 <= lane < g.lanes implies #[trigger] turns(earlier, lane)
        <= g.segment_length - first_index(pass, slice) by {
        assert(turns(schedule, lane) >= turns(earlier, lane));
    }
    assert(turns(schedule, schedule.last() as int) == turns(earlier, schedule.last() as int)
        + 1);
}

/// No lane has a negative number of turns.
pub proof fn lemma_turns_nonnegative(schedule: Seq<usize>, lane: int)
    ensures
        turns(schedule, lane) >= 0,
    decreases schedule.len(),
{
    if schedule.len() > 0 {
        lemma_turns_nonnegative(schedule.drop_last(), lane);
    }
}

/// After any admissible schedule every lane is as if it had computed alone
/// as many blocks as it has had turns.
pub proof fn lemma_run_keeps_lanes_alone(
    g: Geometry,
    mem: Seq<u64>,
    pass: int,
    slice: int,
    schedule: Seq<usize>,
)
    requires
        g.wf(),
        mem.len() == g.words(),
        0 <= pass,
        0 <= slice < 4,
        admissible(g, pass, slice, schedule),
    ensures
        lanes_as_alone(
            g,
            mem,
            pass,
            slice,
            run(g, mem, pass, slice, schedule),
            |l: int| first_index(pass, slice) + turns(schedule, l),
        ),
    decreases schedule.len(),
{
    let first = first_index(pass, slice);
    if schedule.len() > 0 {
        let earlier = schedule.drop_last();
        let lane = schedule.last() as int;
        lemma_earlier_is_admissible(g, pass, slice, schedule);
        lemma_run_keeps_lanes_alone(g, mem, pass, slice, earlier);
        let reached = |l: int| first + turns(earlier, l);
        assert forall|l: int| 0 <= l < g.lanes implies first <= #[trigger] reached(l)
            <= g.segment_length by {
            lemma_turns_nonnegative(earlier, l);
            assert(turns(earlier, l) <= g.segment_length - first);
        }
        let s = run(g, mem, pass, slice, earlier);
        lemma_step_keeps_lanes_alone(g, mem, pass, slice, s, reached, lane);
        let s2 = step(g, s, pass, slice, lane, reached(lane));
        assert(s2 == run(g, mem, pass, slice, schedule));
        let after = |l: int|
            if l == lane {
                reached(lane) + 1
            } else {
                reached(l)
            };
        assert(lanes_as_alone(g, mem, pass, slice, s2, after));
        assert forall|l: int, c: int| 0 <= l < g.lanes && 0 <= c < g.lane_length implies block_at(
            s2,
            #[trigger] g.block_index(l, c),
        ) == block_at(
            fill_segment(g, mem, pass, slice, l, first + turns(schedule, l)),
            g.block_index(l, c),
        ) by {
            assert(after(l) == first + turns(schedule, l));
        }
    } else {
        assert forall|l: int, c: int| 0 <= l < g.lanes && 0 <= c < g.lane_length implies block_at(
            mem,
            #[trigger] g.block_index(l, c),
        ) == block_at(
            fill_segment(g, mem, pass, slice, l, first + turns(schedule, l)),
            g.block_index(l, c),
        ) by {}
    }
}

/// How far lane `l` has come when the lanes are computed one after the
/// other, `lanes` of them are done and the next has reached block `upto`.
pub open spec fn reached_in_turn(
    g: Geometry,
    pass: int,
    slice: int,
    lanes: int,
    upto: int,
    l: int,
) -> int {
    if l < lanes {
        g.segment_length as int
    } else if l == lanes {
        upto
    } else {
        first_index(pass, slice)
    }
}

/// While the lanes are computed one after the other, every lane is as if
/// it had computed alone: here within the segment of lane `lanes`, of which
/// the blocks before `upto` are computed.
pub proof fn lemma_segment_in_turn_keeps_lanes_alone(
    g: Geometry,
    mem: Seq<u64>,
    pass: int,
    slice: int,
    lanes: int,
    upto: int,
)
    requires
        g.wf(),
        mem.len() == g.words(),
        0 <= pass,
        0 <= slice < 4,
        0 <= lanes < g.lanes,
        first_index(pass, slice) <= upto <= g.segment_length,
    ensures
        lanes_as_alone(
            g,
            mem,
            pass,
            slice,
            fill_segment(g, fill_slice(g, mem, pass, slice, lanes), pass, slice, lanes, upto),
            |l: int| reached_in_turn(g, pass, slice, lanes, upto, l),
        ),
    decreases lanes, upto,
{
    let first = first_index(pass, slice);
    let start = fill_slice(g, mem, pass, slice, lanes);
    if upto > first {
        lemma_segment_in_turn_keeps_lanes_alone(g, mem, pass, slice, lanes, upto - 1);
        let reached = |l: int| reached_in_turn(g, pass, slice, lanes, upto - 1, l);
        let s = fill_segment(g, start, pass, slice, lanes, upto - 1);
        lemma_column_in_lane(g, slice, 0);
        assert forall|l: int| 0 <= l < g.lanes implies first <= #[trigger] reached(l)
            <= g.segment_length by {}
        lemma_step_keeps_lanes_alone(g, mem, pass, slice, s, reached, lanes);
        let s2 = step(g, s, pass, slice, lanes, upto - 1);
        assert(s2 == fill_segment(g, start, pass, slice, lanes, upto));
        let after = |l: int|
            if l == lanes {
                reached(lanes) + 1
            } else {
                reached(l)
            };
        assert(lanes_as_alone(g, mem, pass, slice, s2, after));
        assert forall|l: int, c: int| 0 <= l < g.lanes && 0 <= c < g.lane_length implies block_at(
            s2,
            #[trigger] g.block_index(l, c),
        ) == block_at(
            fill_segment(
                g,
                mem,
                pass,
                slice,
                l,
                reached_in_turn(g, pass, slice, lanes, upto, l),
            ),
            g.block_index(l, c),
        ) by {
            assert(after(l) == reached_in_turn(g, pass, slice, lanes, upto, l));
        }
    } else if lanes > 0 {
        lemma_segment_in_turn_keeps_lanes_alone(
            g,
            mem,
            pass,
            slice,
            lanes - 1,
            g.segment_length as int,
        );
        let s = fill_segment(g, start, pass, slice, lanes, upto);
        assert(s == start);
        assert(start == fill_segment(
            g,
            fill_slice(g, mem, pass, slice, lanes - 1),
            pass,
            slice,
            lanes - 1,
            g.segment_length as int,
        ));
        assert forall|l: int, c: int| 0 <= l < g.lanes && 0 <= c < g.lane_length implies block_at(
            s,
            #[trigger] g.block_index(l, c),
        ) == block_at(
            fill_segment(
                g,
                mem,
                pass,
                slice,
                l,
                reached_in_turn(g, pass, slice, lanes, upto, l),
            ),
            g.block_index(l, c),
        ) by {
            assert(reached_in_turn(g, pass, slice, lanes - 1, g.segment_length as int, l)
                == reached_in_turn(g, pass, slice, lanes, upto, l));
        }
    } else {
        assert(start == mem);
        assert forall|l: int, c: int| 0 <= l < g.lanes && 0 <= c < g.lane_length implies block_at(
            mem,
            #[trigger] g.block_index(l, c),
        ) == block_at(
            fill_segment(
                g,
                mem,
                pass,
                slice,
                l,
                reached_in_turn(g, pass, slice, lanes, upto, l),
            ),
            g.block_index(l, c),
        ) by {}
    }
}

/// The order of the steps inside a segment does not matter. Whatever
/// schedule computes the whole segment of every lane, each lane in its own
/// order, leaves the memory that computing the lanes one after the other
/// leaves.
pub proof fn lemma_any_schedule_fills_the_slice(
    g: Geometry,
    mem: Seq<u64>,
    pass: int,
    slice: int,
    schedule: Seq<usize>,
)
    requires
        g.wf(),
        mem.len() == g.words(),
        0 <= pass,
        0 <= slice < 4,
        complete(g, pass, slice, schedule),
    ensures
        run(g, mem, pass, slice, schedule) == fill_slice(g, mem, pass, slice, g.lanes as int),
{
    let first = first_index(pass, slice);
    let last = g.lanes - 1;
    lemma_run_keeps_lanes_alone(g, mem, pass, slice, schedule);
    lemma_segment_in_turn_keeps_lanes_alone(g, mem, pass, slice, last, g.segment_length as int);
    let in_turn = fill_segment(
        g,
        fill_slice(g, mem, pass, slice, last),
        pass,
        slice,
        last,
        g.segment_length as int,
    );
    assert(in_turn == fill_slice(g, mem, pass, slice, g.lanes as int));
    let reached1 = |l: int| first + turns(schedule, l);
    let reached2 = |l: int| reached_in_turn(g, pass, slice, last, g.segment_length as int, l);
    assert forall|l: int| 0 <= l < g.lanes implies #[trigger] reached1(l) == reached2(l) by {
        assert(turns(schedule, l) == g.segment_length - first);
    }
    lemma_lanes_as_alone_is_one_memory(
        g,
        mem,
        pass,
        slice,
        run(g, mem, pass, slice, schedule),
        reached1,
        in_turn,
        reached2,
    );
}

/// The memory after the first `slices` segments of pass `pass`, the steps
/// inside each segment taken in the order that `schedule_of` gives for it.
pub open spec fn scheduled_pass(
    g: Geometry,
    mem: Seq<u64>,
    pass: int,
    slices: int,
    schedule_of: spec_fn(int, int) -> Seq<usize>,
) -> Seq<u64>
    decreases slices,
{
    if slices <= 0 {
        mem
    } else {
        run(
            g,
            scheduled_pass(g, mem, pass, slices - 1, schedule_of),
            pass,
            slices - 1,
            schedule_of(pass, slices - 1),
        )
    }
}

/// The memory after the first `passes` passes, the steps inside each
/// segment taken in the order that `schedule_of` gives for it.
pub open spec fn scheduled_passes(
    g: Geometry,
    mem: Seq<u64>,
    passes: int,
    schedule_of: spec_fn(int, int) -> Seq<usize>,
) -> Seq<u64>
    decreases passes,
{
    if passes <= 0 {
        mem
    } else {
        scheduled_pass(
            g,
            scheduled_passes(g, mem, passes - 1, schedule_of),
            passes - 1,
            4,
            schedule_of,
        )
    }
}

/// The schedule of every segment of every pass computes that segment whole.
pub open spec fn every_schedule_complete(
    g: Geometry,
    schedule_of: spec_fn(int, int) -> Seq<usize>,
) -> bool {
    forall|pass: int, slice: int|
        0 <= pass < g.passes && 0 <= slice < 4 ==> complete(
            g,
            pass,
            slice,
            #[trigger] schedule_of(pass, slice),
        )
}

/// Within a pass, whatever the order of the steps inside each segment, the
/// memory after some of its segments is what the lanes computed one after
/// the other leave.
pub proof fn lemma_any_schedule_fills_the_pass(
    g: Geometry,
    mem: Seq<u64>,
    pass: int,
    slices: int,
    schedule_of: spec_fn(int, int) -> Seq<usize>,
)
    requires
        g.wf(),
        mem.len() == g.words(),
        0 <= pass < g.passes,
        0 <= slices <= 4,
        every_schedule_complete(g, schedule_of),
    ensures
        scheduled_pass(g, mem, pass, slices, schedule_of) == fill_pass(g, mem, pass, slices),
    decreases slices,
{
    if slices > 0 {
        lemma_any_schedule_fills_the_pass(g, mem, pass, slices - 1, schedule_of);
        lemma_fill_pass_len(g, mem, pass, slices - 1);
        lemma_any_schedule_fills_the_slice(
            g,
            fill_pass(g, mem, pass, slices - 1),
            pass,
            slices - 1,
            schedule_of(pass, slices - 1),
        );
    }
}

/// Concurrency changes nothing. Whatever the order of the steps inside each
/// segment, as long as every lane computes its own blocks in order and all
/// lanes finish a segment before any begins the next, the memory after all
/// passes is the memory that one worker leaves who computes lane after
/// lane; the tag, which is read off that memory, is the same.
pub proof fn lemma_any_schedule_fills_the_memory(
    g: Geometry,
    mem: Seq<u64>,
    passes: int,
    schedule_of: spec_fn(int, int) -> Seq<usize>,
)
    requires
        g.wf(),
        mem.len() == g.words(),
        0 <= passes <= g.passes,
        every_schedule_complete(g, schedule_of),
    ensures
        scheduled_passes(g, mem, passes, schedule_of) == fill_passes(g, mem, passes),
        passes == g.passes ==> scheduled_passes(g, mem, passes, schedule_of) == fill(g, mem),
    decreases passes,
{
    if passes > 0 {
        lemma_any_schedule_fills_the_memory(g, mem, passes - 1, schedule_of);
        lemma_fill_passes_len(g, mem, passes - 1);
        lemma_any_schedule_fills_the_pass(
            g,
            fill_passes(g, mem, passes - 1),
            passes - 1,
            4,
            schedule_of,
        );
    }
}

/// One more step in a schedule is one more turn for its lane and none for
/// the others.
pub proof fn lemma_turns_of_next(schedule: Seq<usize>, k: int, lane: int)
    requires
        0 <= k < schedule.len(),
    ensures
        turns(schedule.take(k + 1), lane) == turns(schedule.take(k), lane) + if schedule[k]
            == lane {
            1int
        } else {
            0int
        },
{
    assert(schedule.take(k + 1).drop_last() =~= schedule.take(k));
    assert(schedule.take(k + 1).last() == schedule[k]);
}

/// A lane has had no more turns after `k` steps than after all steps, and
/// no more than `k`.
pub proof fn lemma_turns_of_prefix(schedule: Seq<usize>, k: int, lane: int)
    requires
        0 <= k <= schedule.len(),
    ensures
        0 <= turns(schedule.take(k), lane) <= turns(schedule, lane),
        turns(schedule.take(k), lane) <= k,
    decreases schedule.len() - k,
{
    lemma_turns_nonnegative(schedule.take(k), lane);
    if k < schedule.len() {
        lemma_turns_of_prefix(schedule, k + 1, lane);
        lemma_turns_of_next(schedule, k, lane);
        lemma_turns_within(schedule.take(k), lane);
    } else {
        assert(schedule.take(k) =~= schedule);
        lemma_turns_within(schedule, lane);
    }
}

/// A lane has no more turns than the schedule has steps.
pub proof fn lemma_turns_within(schedule: Seq<usize>, lane: int)
    ensures
        turns(schedule, lane) <= schedule.len(),
    decreases schedule.len(),
{
    if schedule.len() > 0 {
        lemma_turns_within(schedule.drop_last(), lane);
    }
}

/// Whether the schedule computes the whole segment of every lane.
pub fn is_complete(g: &Geometry, pass: u32, slice: usize, schedule: &[usize]) -> (r: bool)
    requires
        g.wf(),
    ensures
        r == complete(*g, pass as int, slice as int, schedule@),
{
    let first: usize = if pass == 0 && slice == 0 {
        2
    } else {
        0
    };
    let steps: usize = g.segment_length - first;
    let mut counts: Vec<usize> = vec![0usize; g.lanes];
    let len: usize = schedule.len();
    let mut k: usize = 0;
    assert(schedule@.take(0) =~= Seq::<usize>::empty());
    while k < len
        invariant
            g.wf(),
            k <= len,
            len == schedule@.len(),
            counts@.len() == g.lanes,
            forall|i: int| 0 <= i < k ==> #[trigger] schedule@[i] < g.lanes,
            forall|l: int|
                0 <= l < g.lanes ==> #[trigger] counts@[l] == turns(schedule@.take(k as int), l),
        decreases len - k,
    {
        let lane: usize = schedule[k];
        if lane >= g.lanes {
            assert(!(schedule@[k as int] < g.lanes));
            return false;
        }
        proof {
            lemma_turns_of_prefix(schedule@, k as int, lane as int);
            assert forall|l: int| 0 <= l < g.lanes implies turns(
                schedule@.take(k + 1),
                l,
            ) == turns(schedule@.take(k as int), l) + if lane == l {
                1int
            } else {
                0int
            } by {
                lemma_turns_of_next(schedule@, k as int, l);
            }
        }
        let count: usize = counts[lane];
        counts[lane] = count + 1;
        k = k + 1;
    }
    assert(schedule@.take(len as int) =~= schedule@);
    let mut lane: usize = 0;
    while lane < g.lanes
        invariant
            lane <= g.lanes,
            counts@.len() == g.lanes,
            steps == g.segment_length - first_index(pass as int, slice as int),
            forall|l: int| 0 <= l < g.lanes ==> #[trigger] counts@[l] == turns(schedule@, l),
            forall|l: int| 0 <= l < lane ==> #[trigger] turns(schedule@, l) == steps,
        decreases g.lanes - lane,
    {
        if counts[lane] != steps {
            assert(turns(schedule@, lane as int) != steps);
            return false;
        }
        lane = lane + 1;
    }
    true
}

/// Computes segment `slice` of every lane, the steps in the order of the
/// schedule, which names the lane of each step in turn.
///
/// A schedule that does not compute the whole segment of every lane is
/// refused and the memory left as it was. Any other leaves the memory that
/// [`fill_slice_in_place`](crate::fill::fill_slice_in_place) leaves.
pub fn run_schedule(
    g: &Geometry,
    mem: &mut Vec<u64>,
    pass: u32,
    slice: usize,
    schedule: &[usize],
) -> (done: bool)
    requires
        g.wf(),
        old(mem)@.len() == g.words(),
        slice < 4,
    ensures
        done == complete(*g, pass as int, slice as int, schedule@),
        done ==> final(mem)@ == fill_slice(
            *g,
            old(mem)@,
            pass as int,
            slice as int,
            g.lanes as int,
        ),
        !done ==> final(mem)@ == old(mem)@,
        final(mem)@.len() == g.words(),
{
    if !is_complete(g, pass, slice, schedule) {
        return false;
    }
    let first: usize = if pass == 0 && slice == 0 {
        2
    } else {
        0
    };
    let mut progress: Vec<usize> = vec![0usize; g.lanes];
    let len: usize = schedule.len();
    let mut k: usize = 0;
    assert(schedule@.take(0) =~= Seq::<usize>::empty());
    while k < len
        invariant
            g.wf(),
            slice < 4,
            k <= len,
            len == schedule@.len(),
            first == first_index(pass as int, slice as int),
            complete(*g, pass as int, slice as int, schedule@),
            progress@.len() == g.lanes,
            mem@.len() == g.words(),
            forall|l: int|
                0 <= l < g.lanes ==> #[trigger] progress@[l] == turns(
                    schedule@.take(k as int),
                    l,
                ),
            mem@ == run(*g, old(mem)@, pass as int, slice as int, schedule@.take(k as int)),
        decreases len - k,
    {
        let lane: usize = schedule[k];
        proof {
            assert(schedule@[k as int] < g.lanes);
            lemma_turns_of_prefix(schedule@, k + 1, lane as int);
            assert(turns(schedule@, lane as int) == g.segment_length - first);
            assert forall|l: int| 0 <= l < g.lanes implies turns(
                schedule@.take(k + 1),
                l,
            ) == turns(schedule@.take(k as int), l) + if lane == l {
                1int
            } else {
                0int
            } by {
                lemma_turns_of_next(schedule@, k as int, l);
            }
            assert(schedule@.take(k + 1).drop_last() =~= schedule@.take(k as int));
            assert(schedule@.take(k + 1).last() == lane);
        }
        let done: usize = progress[lane];
        step_in_place(g, mem, pass, slice, lane, first + done);
        progress[lane] = done + 1;
        k = k + 1;
    }
    proof {
        assert(schedule@.take(len as int) =~= schedule@);
        lemma_any_schedule_fills_the_slice(
            *g,
            old(mem)@,
            pass as int,
            slice as int,
            schedule@,
        );
    }
    true
}

} // verus!
