//! Mapping of frame indices to time.

use vstd::prelude::*;
use crate::constants::{ANNOT_N_FRAMES, HOP_TIME_UNITS, WINDOW_OFFSET_TIME_UNITS};

verus! {

/// The time at which frame `frame` begins, in time units: one hop per frame,
/// less the window correction for every analysis window completed before it.
pub open spec fn frame_time(frame: nat) -> nat {
    (frame * HOP_TIME_UNITS as nat - (frame / ANNOT_N_FRAMES as nat) * WINDOW_OFFSET_TIME_UNITS as nat) as nat
}

/// Frame times grow with the frame index, so the time between two frames is
/// never negative.
pub proof fn lemma_frame_time_monotonic(a: nat, b: nat)
    requires
        a <= b,
    ensures
        frame_time(a) <= frame_time(b),
        a < b ==> frame_time(a) < frame_time(b),
        frame_time(a) == a * 51_200 - (a / 172) * 7_938,
        frame_time(a) <= a * 51_200,
{
    assert(a / 172 <= a) by (nonlinear_arith);
    assert(b / 172 <= b) by (nonlinear_arith);
    assert(a / 172 <= b / 172) by (nonlinear_arith)
        requires a <= b;
    assert(b / 172 - a / 172 <= b - a) by (nonlinear_arith)
        requires a <= b;
}

/// The time at which a frame begins, for a frame index that may be the sum
/// of two machine-sized indices.
pub(crate) fn time_of_frame(frame: u128) -> (time: u128)
    requires
        frame <= 0x2_0000_0000_0000_0000,
    ensures
        time == frame_time(frame as nat),
{
    let windows: u128 = frame / (ANNOT_N_FRAMES as u128);
    proof {
        lemma_frame_time_monotonic(frame as nat, frame as nat);
    }
    let forward: u128 = frame * (HOP_TIME_UNITS as u128);
    let back: u128 = windows * (WINDOW_OFFSET_TIME_UNITS as u128);
    forward - back
}

/// Converts a frame index to the time at which the frame begins.
pub fn model_frame_to_time(frame: usize) -> (time: u128)
    ensures
        time == frame_time(frame as nat),
{
    time_of_frame(frame as u128)
}

} // verus!
