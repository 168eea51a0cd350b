//! The first pass of the decoder: notes that start at onsets.

use vstd::prelude::*;
use crate::constants::MIDI_OFFSET;
use crate::energy::{
    DecodeState, Sustain, all_decoded, clear_band, clear_band_rows, dark_outside_gate, lemma_clear_band, note_at,
    push_note, state_of, sustain_forward, sustain_of,
};
use crate::helpers::keeps_column;
use crate::kernel::{grid_max, positions};
use crate::matrix::{grid, rectangular, width};
use crate::note_event_frames::{NoteEventFrame, note_views};

verus! {

/// The end of a note that starts at row `start` of column `f`: the last
/// row before the run of silent frames at which the walk down the column
/// stops. It is `start` itself where no frame after it sounds.
pub open spec fn onset_note_end(e: Seq<Seq<u32>>, start: int, f: int, s: Sustain) -> int {
    let (i, k) = sustain_forward(e, f, start + 1, 0, s);
    i - k - 1
}

/// Handles one onset candidate at row `start` of column `f`. The note runs
/// from `start` to its end and lasts the rows between the two. Where that
/// is more than `min_note_len`, the note is recorded with the mean of the
/// frames over the rows that it lasts, and its energy is removed from all
/// rows from `start` to its end.
pub open spec fn onset_step(frames: Seq<Seq<u32>>, state: DecodeState, start: int, f: int, s: Sustain) -> DecodeState {
    if start >= state.energy.len() - 1 {
        state
    } else {
        let end = onset_note_end(state.energy, start, f, s);
        if end - start <= s.min_note_len {
            state
        } else {
            DecodeState {
                energy: clear_band(state.energy, start, end + 1, f),
                notes: state.notes.push(note_at(frames, f, start, end)),
            }
        }
    }
}

/// Handles the first `remaining` candidates, the last of them first.
pub open spec fn onset_pass(
    frames: Seq<Seq<u32>>,
    state: DecodeState,
    candidates: Seq<(int, int)>,
    remaining: int,
    s: Sustain,
) -> DecodeState
    decreases remaining,
{
    if remaining <= 0 {
        state
    } else {
        let (start, f) = candidates[remaining - 1];
        onset_pass(frames, onset_step(frames, state, start, f, s), candidates, remaining - 1, s)
    }
}

fn note_end(
    energy: &Vec<Vec<u32>>,
    freq_idx: usize,
    start: usize,
    frame_thresh: u128,
    energy_tolerance: usize,
    Ghost(s): Ghost<Sustain>,
) -> (end: usize)
    requires
        rectangular(grid(energy@)),
        start + 1 < energy@.len(),
        freq_idx < width(grid(energy@)),
        s.frame_thresh == frame_thresh,
        s.energy_tolerance == energy_tolerance,
    ensures
        end == onset_note_end(grid(energy@), start as int, freq_idx as int, s),
        start <= end < energy@.len() - 1,
{
    let ghost g = grid(energy@);
    let n_frames: usize = energy.len();
    let mut i: usize = start + 1;
    let mut k: usize = 0;
    while i < n_frames - 1 && k < energy_tolerance
        invariant
            start + 1 <= i <= n_frames - 1,
            k <= i - (start + 1),
            n_frames == energy@.len(),
            g == grid(energy@),
            rectangular(g),
            freq_idx < width(g),
            s.frame_thresh == frame_thresh,
            s.energy_tolerance == energy_tolerance,
            sustain_forward(g, freq_idx as int, i as int, k as int, s) == sustain_forward(
                g,
                freq_idx as int,
                start + 1,
                0,
                s,
            ),
        decreases n_frames - i,
    {
        assert(g[i as int] == energy@[i as int]@);
        assert(g[i as int].len() == width(g));
        let ghost before = (i as int, k as int);
        if (energy[i][freq_idx] as u128) < frame_thresh {
            k += 1;
        } else {
            k = 0;
        }
        i += 1;
        assert(sustain_forward(g, freq_idx as int, before.0, before.1, s) == sustain_forward(
            g,
            freq_idx as int,
            i as int,
            k as int,
            s,
        ));
    }
    i - k - 1
}

pub(crate) fn onset_pass_run(
    frames: &Vec<Vec<u32>>,
    energy: &mut Vec<Vec<u32>>,
    note_starts: &Vec<usize>,
    freq_idxs: &Vec<usize>,
    frame_thresh: u128,
    min_note_len: usize,
    energy_tolerance: usize,
    Ghost(max_pitch): Ghost<Option<usize>>,
    Ghost(min_pitch): Ghost<Option<usize>>,
) -> (notes: Vec<NoteEventFrame>)
    requires
        rectangular(grid(frames@)),
        rectangular(grid(old(energy)@)),
        old(energy)@.len() == frames@.len(),
        width(grid(old(energy)@)) == width(grid(frames@)),
        width(grid(frames@)) + MIDI_OFFSET <= usize::MAX,
        note_starts@.len() == freq_idxs@.len(),
        forall|k: int|
            0 <= k < note_starts@.len() ==> {
                &&& (#[trigger] note_starts@[k]) < frames@.len()
                &&& freq_idxs@[k] < width(grid(frames@))
                &&& keeps_column(freq_idxs@[k] as int, max_pitch, min_pitch)
            },
        dark_outside_gate(grid(old(energy)@), max_pitch, min_pitch),
    ensures
        state_of(final(energy)@, notes@) == onset_pass(
            grid(frames@),
            DecodeState { energy: grid(old(energy)@), notes: Seq::empty() },
            positions(note_starts@, freq_idxs@),
            note_starts@.len() as int,
            sustain_of(frame_thresh, min_note_len, energy_tolerance),
        ),
        rectangular(grid(final(energy)@)),
        final(energy)@.len() == frames@.len(),
        width(grid(final(energy)@)) == width(grid(frames@)),
        dark_outside_gate(grid(final(energy)@), max_pitch, min_pitch),
        all_decoded(
            notes@,
            frames@.len() as int,
            width(grid(frames@)) as int,
            grid_max(grid(frames@)) as int,
            min_note_len as int,
            max_pitch,
            min_pitch,
        ),
{
    let ghost s = sustain_of(frame_thresh, min_note_len, energy_tolerance);
    let ghost fg = grid(frames@);
    let ghost candidates = positions(note_starts@, freq_idxs@);
    let ghost goal = onset_pass(
        fg,
        DecodeState { energy: grid(energy@), notes: Seq::empty() },
        candidates,
        note_starts@.len() as int,
        s,
    );
    let n_frames: usize = frames.len();
    let mut notes: Vec<NoteEventFrame> = Vec::new();
    let mut remaining: usize = note_starts.len();
    assert(note_views(notes@) =~= Seq::empty());
    while remaining > 0
        invariant
            remaining <= note_starts@.len(),
            note_starts@.len() == freq_idxs@.len(),
            n_frames == frames@.len(),
            fg == grid(frames@),
            s == sustain_of(frame_thresh, min_note_len, energy_tolerance),
            candidates == positions(note_starts@, freq_idxs@),
            rectangular(fg),
            rectangular(grid(energy@)),
            energy@.len() == frames@.len(),
            width(grid(energy@)) == width(fg),
            width(fg) + MIDI_OFFSET <= usize::MAX,
            forall|k: int|
                0 <= k < note_starts@.len() ==> {
                    &&& (#[trigger] note_starts@[k]) < frames@.len()
                    &&& freq_idxs@[k] < width(fg)
                    &&& keeps_column(freq_idxs@[k] as int, max_pitch, min_pitch)
                },
            dark_outside_gate(grid(energy@), max_pitch, min_pitch),
            all_decoded(
                notes@,
                n_frames as int,
                width(fg) as int,
                grid_max(fg) as int,
                min_note_len as int,
                max_pitch,
                min_pitch,
            ),
            onset_pass(fg, state_of(energy@, notes@), candidates, remaining as int, s) == goal,
        decreases remaining,
    {
        let note_start_idx: usize = note_starts[remaining - 1];
        let freq_idx: usize = freq_idxs[remaining - 1];
        let ghost before = state_of(energy@, notes@);
        assert(candidates[remaining - 1] == (note_start_idx as int, freq_idx as int));
        assert(onset_pass(fg, before, candidates, remaining as int, s) == onset_pass(
            fg,
            onset_step(fg, before, note_start_idx as int, freq_idx as int, s),
            candidates,
            remaining - 1,
            s,
        ));
        remaining -= 1;
        // A candidate in the last frame has no room for a note.
        if note_start_idx < n_frames - 1 {
            let end: usize = note_end(energy, freq_idx, note_start_idx, frame_thresh, energy_tolerance, Ghost(s));
            if end - note_start_idx > min_note_len {
                proof {
                    lemma_clear_band(
                        grid(energy@),
                        note_start_idx as int,
                        end + 1,
                        freq_idx as int,
                        max_pitch,
                        min_pitch,
                    );
                }
                clear_band_rows(energy, note_start_idx, end + 1, freq_idx);
                push_note(
                    &mut notes,
                    frames,
                    freq_idx,
                    note_start_idx,
                    end,
                    Ghost(min_note_len as int),
                    Ghost(max_pitch),
                    Ghost(min_pitch),
                );
            }
        }
        assert(state_of(energy@, notes@) == onset_step(fg, before, note_start_idx as int, freq_idx as int, s));
    }
    notes
}

} // verus!
