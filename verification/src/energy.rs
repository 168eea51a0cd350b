//! The sustain of notes and the energy that they take up.

use vstd::prelude::*;
use crate::constants::MIDI_OFFSET;
use crate::helpers::keeps_column;
use crate::kernel::{grid_max, lemma_grid_max};
use crate::matrix::{grid, nowhere_above, rectangular, set_cell, width};
use crate::note_event_frames::{FrameNote, NoteEventFrame, note_views};

verus! {

/// The rule by which a note is sustained: a frame counts as silent when its
/// activation is below `frame_thresh`; a note ends once `energy_tolerance`
/// silent frames have followed one another; and it is kept only if it
/// lasts more than `min_note_len` frames.
pub struct Sustain {
    pub frame_thresh: int,
    pub min_note_len: int,
    pub energy_tolerance: int,
}

/// The remaining energy and the notes found so far.
pub struct DecodeState {
    pub energy: Seq<Seq<u32>>,
    pub notes: Seq<FrameNote>,
}

/// A note without bends at column `f`, from row `from` up to row `to`,
/// whose amplitude is the mean of `frames` over these rows.
pub open spec fn note_at(frames: Seq<Seq<u32>>, f: int, from: int, to: int) -> FrameNote {
    FrameNote {
        start_frame: from,
        duration_frames: to - from,
        pitch_midi: f + MIDI_OFFSET as int,
        amplitude: column_mean(frames, f, from, to),
        pitch_bends: None,
    }
}

/// The sum of column `f` of `g` over the rows from `from` up to `to`.
pub open spec fn column_total(g: Seq<Seq<u32>>, f: int, from: int, to: int) -> int
    decreases to - from,
{
    if to <= from {
        0
    } else {
        column_total(g, f, from, to - 1) + g[to - 1][f] as int
    }
}

/// The mean of column `f` of `g` over the rows from `from` up to `to`,
/// rounded down.
pub open spec fn column_mean(g: Seq<Seq<u32>>, f: int, from: int, to: int) -> int {
    column_total(g, f, from, to) / (to - from)
}

/// The matrix `e` with the columns `f - 1`, `f` and `f + 1` set to 0 in the
/// rows from `from` up to `to`.
pub open spec fn clear_band(e: Seq<Seq<u32>>, from: int, to: int, f: int) -> Seq<Seq<u32>> {
    Seq::new(
        e.len(),
        |r: int|
            Seq::new(
                e[r].len(),
                |c: int|
                    if from <= r < to && f - 1 <= c <= f + 1 {
                        0u32
                    } else {
                        e[r][c]
                    },
            ),
    )
}

/// Walks down column `f` from row `i` with `k` silent frames counted so
/// far, and returns the row and the count at which the walk stops: at the
/// last row, or when `energy_tolerance` silent frames have followed one
/// another.
pub open spec fn sustain_forward(e: Seq<Seq<u32>>, f: int, i: int, k: int, s: Sustain) -> (int, int)
    decreases e.len() - i,
{
    if i < e.len() - 1 && k < s.energy_tolerance {
        sustain_forward(
            e,
            f,
            i + 1,
            if (e[i][f] as int) < s.frame_thresh {
                k + 1
            } else {
                0
            },
            s,
        )
    } else {
        (i, k)
    }
}

/// Walks up column `f` from row `i` with `k` silent frames counted so far,
/// and returns the row and the count at which the walk stops: at row 0, or
/// when `energy_tolerance` silent frames have followed one another.
pub open spec fn sustain_backward(e: Seq<Seq<u32>>, f: int, i: int, k: int, s: Sustain) -> (int, int)
    decreases i,
{
    if i > 0 && k < s.energy_tolerance {
        sustain_backward(
            e,
            f,
            i - 1,
            if (e[i][f] as int) < s.frame_thresh {
                k + 1
            } else {
                0
            },
            s,
        )
    } else {
        (i, k)
    }
}

/// The sustain rule that the decoder's working values stand for.
pub open spec fn sustain_of(frame_thresh: u128, min_note_len: usize, energy_tolerance: usize) -> Sustain {
    Sustain {
        frame_thresh: frame_thresh as int,
        min_note_len: min_note_len as int,
        energy_tolerance: energy_tolerance as int,
    }
}

/// Every cell of `e` outside the frequency gate is 0.
pub open spec fn dark_outside_gate(e: Seq<Seq<u32>>, max_pitch: Option<usize>, min_pitch: Option<usize>) -> bool {
    forall|r: int, c: int|
        0 <= r < e.len() && 0 <= c < e[r].len() && !keeps_column(c, max_pitch, min_pitch)
            ==> (#[trigger] e[r][c]) == 0
}

/// What holds of every note that the decoder returns for a matrix of
/// `rows` rows and `cols` columns with no cell above `loudest`: it lies
/// inside the matrix, its column lies inside the frequency gate, it lasts
/// more than `min_note_len` frames, its amplitude does not exceed
/// `loudest`, and it carries no bends.
pub open spec fn decoded_note(
    note: FrameNote,
    rows: int,
    cols: int,
    loudest: int,
    min_note_len: int,
    max_pitch: Option<usize>,
    min_pitch: Option<usize>,
) -> bool {
    &&& 0 <= note.start_frame
    &&& note.duration_frames > min_note_len
    &&& note.duration_frames > 0
    &&& note.start_frame + note.duration_frames <= rows
    &&& MIDI_OFFSET <= note.pitch_midi < cols + MIDI_OFFSET
    &&& keeps_column(note.pitch_midi - MIDI_OFFSET, max_pitch, min_pitch)
    &&& 0 <= note.amplitude <= loudest
    &&& note.pitch_bends is None
}

pub(crate) fn mean_activation(frames: &Vec<Vec<u32>>, freq_idx: usize, from: usize, to: usize) -> (mean: u32)
    requires
        rectangular(grid(frames@)),
        from < to <= frames@.len(),
        freq_idx < width(grid(frames@)),
    ensures
        mean == column_mean(grid(frames@), freq_idx as int, from as int, to as int),
        mean <= grid_max(grid(frames@)),
{
    let ghost g = grid(frames@);
    let ghost top = grid_max(g) as int;
    proof {
        lemma_grid_max(g);
    }
    let mut sum: u128 = 0;
    let mut j: usize = from;
    while j < to
        invariant
            from <= j <= to,
            to <= frames@.len(),
            g == grid(frames@),
            rectangular(g),
            freq_idx < width(g),
            sum == column_total(g, freq_idx as int, from as int, j as int),
            sum <= (j - from) * 0xFFFF_FFFF,
            sum <= (j - from) * top,
            top == grid_max(g),
            forall|r: int, c: int| 0 <= r < g.len() && 0 <= c < g[r].len() ==> g[r][c] <= top,
        decreases to - j,
    {
        assert(g[j as int] == frames@[j as int]@);
        assert(g[j as int].len() == width(g));
        assert(g[j as int][freq_idx as int] <= top);
        assert((j - from) * top + top == (j + 1 - from) * top) by (nonlinear_arith);
        assert((j - from) * 0xFFFF_FFFF + 0xFFFF_FFFF <= 0xFFFF_FFFF_FFFF_FFFF * 0xFFFF_FFFF + 0xFFFF_FFFF) by (nonlinear_arith)
            requires
                j - from <= 0xFFFF_FFFF_FFFF_FFFF,
        ;
        sum = sum + frames[j][freq_idx] as u128;
        j += 1;
    }
    let count: u128 = (to - from) as u128;
    assert(sum / count <= 0xFFFF_FFFF) by (nonlinear_arith)
        requires
            sum <= count * 0xFFFF_FFFF,
            count > 0,
    ;
    assert(sum / count <= top) by (nonlinear_arith)
        requires
            sum <= count * top,
            count > 0,
    ;
    (sum / count) as u32
}

pub(crate) fn clear_band_rows(energy: &mut Vec<Vec<u32>>, from: usize, to: usize, freq_idx: usize)
    requires
        rectangular(grid(old(energy)@)),
        from <= to <= old(energy)@.len(),
        freq_idx < width(grid(old(energy)@)),
    ensures
        grid(final(energy)@) == clear_band(grid(old(energy)@), from as int, to as int, freq_idx as int),
        final(energy)@.len() == old(energy)@.len(),
{
    let ghost g0 = grid(energy@);
    let ghost cols = width(g0);
    let mut j: usize = from;
    while j < to
        invariant
            from <= j <= to,
            to <= g0.len(),
            energy@.len() == g0.len(),
            rectangular(g0),
            cols == width(g0),
            freq_idx < cols,
            forall|i: int| 0 <= i < g0.len() ==> (#[trigger] grid(energy@)[i]).len() == cols,
            forall|i: int, c: int|
                0 <= i < g0.len() && 0 <= c < cols ==> (#[trigger] grid(energy@)[i][c]) == (if from <= i < j && freq_idx - 1
                    <= c <= freq_idx + 1 {
                    0u32
                } else {
                    g0[i][c]
                }),
        decreases to - j,
    {
        assert(grid(energy@)[j as int].len() == cols);
        assert(grid(energy@)[j as int] == energy@[j as int]@);
        let len: usize = energy[j].len();
        set_cell(energy, j, freq_idx, 0);
        if freq_idx + 1 < len {
            set_cell(energy, j, freq_idx + 1, 0);
        }
        if freq_idx > 0 {
            set_cell(energy, j, freq_idx - 1, 0);
        }
        j += 1;
    }
    assert(grid(energy@) =~~= clear_band(g0, from as int, to as int, freq_idx as int));
}

/// The state that the decoder's working values stand for.
pub open spec fn state_of(energy: Seq<Vec<u32>>, notes: Seq<NoteEventFrame>) -> DecodeState {
    DecodeState { energy: grid(energy), notes: note_views(notes) }
}

/// Every note of `notes` is a note that the decoder may return.
pub open spec fn all_decoded(
    notes: Seq<NoteEventFrame>,
    rows: int,
    cols: int,
    loudest: int,
    min_note_len: int,
    max_pitch: Option<usize>,
    min_pitch: Option<usize>,
) -> bool {
    forall|k: int|
        0 <= k < notes.len() ==> decoded_note(
            (#[trigger] notes[k])@,
            rows,
            cols,
            loudest,
            min_note_len,
            max_pitch,
            min_pitch,
        )
}

pub(crate) fn push_note(
    notes: &mut Vec<NoteEventFrame>,
    frames: &Vec<Vec<u32>>,
    freq_idx: usize,
    from: usize,
    to: usize,
    Ghost(min_note_len): Ghost<int>,
    Ghost(max_pitch): Ghost<Option<usize>>,
    Ghost(min_pitch): Ghost<Option<usize>>,
)
    requires
        rectangular(grid(frames@)),
        from < to <= frames@.len(),
        to - from > min_note_len,
        freq_idx < width(grid(frames@)),
        width(grid(frames@)) + MIDI_OFFSET <= usize::MAX,
        keeps_column(freq_idx as int, max_pitch, min_pitch),
        all_decoded(
            old(notes)@,
            frames@.len() as int,
            width(grid(frames@)) as int,
            grid_max(grid(frames@)) as int,
            min_note_len,
            max_pitch,
            min_pitch,
        ),
    ensures
        note_views(final(notes)@) == note_views(old(notes)@).push(
            note_at(grid(frames@), freq_idx as int, from as int, to as int),
        ),
        all_decoded(
            final(notes)@,
            frames@.len() as int,
            width(grid(frames@)) as int,
            grid_max(grid(frames@)) as int,
            min_note_len,
            max_pitch,
            min_pitch,
        ),
{
    let amplitude: u32 = mean_activation(frames, freq_idx, from, to);
    let note = NoteEventFrame {
        start_frame: from,
        duration_frames: to - from,
        pitch_midi: freq_idx + MIDI_OFFSET,
        amplitude,
        pitch_bends: None,
    };
    assert(note@ == note_at(grid(frames@), freq_idx as int, from as int, to as int));
    notes.push(note);
    assert(note_views(notes@) =~= note_views(old(notes)@).push(
        note_at(grid(frames@), freq_idx as int, from as int, to as int),
    ));
}

/// `clear_band` keeps the shape of a matrix, raises no cell, and keeps dark
/// what was dark.
pub proof fn lemma_clear_band(
    e: Seq<Seq<u32>>,
    from: int,
    to: int,
    f: int,
    max_pitch: Option<usize>,
    min_pitch: Option<usize>,
)
    requires
        rectangular(e),
    ensures
        rectangular(clear_band(e, from, to, f)),
        width(clear_band(e, from, to, f)) == width(e),
        clear_band(e, from, to, f).len() == e.len(),
        nowhere_above(clear_band(e, from, to, f), e),
        dark_outside_gate(e, max_pitch, min_pitch) ==> dark_outside_gate(
            clear_band(e, from, to, f),
            max_pitch,
            min_pitch,
        ),
{
    let b = clear_band(e, from, to, f);
    assert forall|i: int| 0 <= i < b.len() implies (#[trigger] b[i]).len() == width(e) by {
        assert(e[i].len() == width(e));
    }
    assert forall|i: int| 0 <= i < e.len() implies (#[trigger] e[i]).len() == b[i].len() by {}
}

} // verus!
