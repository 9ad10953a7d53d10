//! Which frame a playing animation shows.
//!
//! Playback runs on a clock of sixty ticks per second. An animation that
//! started at tick `start` shows, at tick `now`, the frame `now - start`,
//! counted round its frames; played in reverse, it shows the frames from the
//! last to the first.

use vstd::arithmetic::div_mod::lemma_mod_add_multiples_vanish;
use vstd::arithmetic::div_mod::lemma_mod_self_0;
use vstd::arithmetic::div_mod::lemma_small_mod;
use vstd::prelude::*;

verus! {

/// Microseconds that six ticks take: a tenth of a second.
pub const MICROS_PER_SIX_TICKS: i64 = 100000;

/// The tick of the playback clock at `micros` microseconds.
pub fn clock_ticks(micros: i64) -> (ticks: i64)
    requires
        0 <= micros,
        micros * 6 <= i64::MAX,
    ensures
        ticks == (micros * 6) / 100000,
{
    (micros * 6) / MICROS_PER_SIX_TICKS
}

/// Ticks that have passed since `start`, as a machine word of 64 bits
/// counts them: a clock that stands before `start` counts round from the top.
pub open spec fn elapsed_ticks(ticks: int, start: int) -> int {
    if ticks >= start {
        ticks - start
    } else {
        ticks - start + 0x1_0000_0000_0000_0000
    }
}

/// The frame that the clock stands at: the number of ticks since `start`,
/// counted round the `totalframe` frames of the animation.
pub fn clock_frame(ticks: i64, start: i64, totalframe: usize) -> (frame: usize)
    requires
        i64::MIN <= ticks - start <= i64::MAX,
        totalframe > 0,
    ensures
        frame == elapsed_ticks(ticks as int, start as int) % (totalframe as int),
        frame < totalframe,
{
    let passed = ticks - start;
    let elapsed: u64 = if passed >= 0 {
        passed as u64
    } else {
        u64::MAX - ((-(passed + 1)) as u64)
    };
    (elapsed % (totalframe as u64)) as usize
}

/// The tick at which an animation that shows frame `frame_num` at tick
/// `ticks` has started.
pub fn clock_start(ticks: i64, frame_num: usize) -> (start: i64)
    requires
        frame_num <= i64::MAX,
        ticks - frame_num >= i64::MIN,
    ensures
        start == ticks - frame_num,
{
    ticks - (frame_num as i64)
}

/// The frame as far from the end as `frame` is from the start.
pub open spec fn mirrored(frame: int, totalframe: int) -> int {
    totalframe - 1 - frame
}

/// The frame to show when the clock stands at `frame`: the same frame, or,
/// in reverse, the one as far from the end as `frame` is from the start.
pub fn shown_frame(frame: usize, totalframe: usize, reversed: bool) -> (shown: usize)
    requires
        frame < totalframe,
    ensures
        shown == if reversed {
            mirrored(frame as int, totalframe as int)
        } else {
            frame as int
        },
        shown < totalframe,
{
    if reversed {
        totalframe - frame - 1
    } else {
        frame
    }
}

/// Whether playback stops when the clock stands at `frame`: at the last
/// tick of a round, unless the animation loops.
pub fn stops_at(frame: usize, totalframe: usize, looping: bool) -> (stops: bool)
    requires
        totalframe > 0,
    ensures
        stops == (frame == totalframe - 1 && !looping),
{
    frame == totalframe - 1 && !looping
}

/// The frame one step forwards from `frame`, round the frames.
pub open spec fn next_round(frame: int, totalframe: int) -> int {
    (frame + 1) % totalframe
}

/// The frame one step backwards from `frame`, round the frames.
pub open spec fn previous_round(frame: int, totalframe: int) -> int {
    (frame + totalframe - 1) % totalframe
}

/// A step round the frames, without division: from the last frame forwards
/// to the first, from the first backwards to the last.
pub proof fn lemma_round(frame: int, totalframe: int)
    requires
        0 <= frame < totalframe,
    ensures
        next_round(frame, totalframe) == if frame + 1 == totalframe {
            0
        } else {
            frame + 1
        },
        previous_round(frame, totalframe) == if frame == 0 {
            totalframe - 1
        } else {
            frame - 1
        },
{
    if frame + 1 == totalframe {
        lemma_mod_self_0(totalframe);
    } else {
        lemma_small_mod((frame + 1) as nat, totalframe as nat);
    }
    if frame == 0 {
        lemma_small_mod((totalframe - 1) as nat, totalframe as nat);
    } else {
        lemma_mod_add_multiples_vanish(frame - 1, totalframe);
        lemma_small_mod((frame - 1) as nat, totalframe as nat);
    }
}

/// The frame one step from `frame_num`, round the frames of the animation:
/// the next one, or, backwards, the one before.
pub fn neighbour_frame(frame_num: usize, totalframe: usize, backwards: bool) -> (neighbour: usize)
    requires
        frame_num < totalframe,
    ensures
        neighbour == if backwards {
            previous_round(frame_num as int, totalframe as int)
        } else {
            next_round(frame_num as int, totalframe as int)
        },
        neighbour < totalframe,
{
    proof {
        lemma_round(frame_num as int, totalframe as int);
    }
    if backwards {
        if frame_num == 0 {
            totalframe - 1
        } else {
            frame_num - 1
        }
    } else {
        if frame_num + 1 == totalframe {
            0
        } else {
            frame_num + 1
        }
    }
}

/// The mirror of the mirror of a frame is the frame, and the mirror of a
/// frame of the animation is one.
pub proof fn law_mirror_twice(frame: int, totalframe: int)
    requires
        0 <= frame < totalframe,
    ensures
        mirrored(mirrored(frame, totalframe), totalframe) == frame,
        0 <= mirrored(frame, totalframe) < totalframe,
{
}

/// A step forwards and a step backwards lead back.
pub proof fn law_step_there_and_back(frame: int, totalframe: int)
    requires
        0 <= frame < totalframe,
    ensures
        previous_round(next_round(frame, totalframe), totalframe) == frame,
        next_round(previous_round(frame, totalframe), totalframe) == frame,
{
    lemma_round(frame, totalframe);
    lemma_round(next_round(frame, totalframe), totalframe);
    lemma_round(previous_round(frame, totalframe), totalframe);
}

} // verus!
