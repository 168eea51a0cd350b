//! The second pass of the decoder: notes found in the energy that the
//! first pass has left.

use vstd::prelude::*;
use crate::constants::MIDI_OFFSET;
use crate::energy::{
    DecodeState, Sustain, all_decoded, clear_band_rows, dark_outside_gate, note_at, push_note, state_of,
    sustain_backward, sustain_forward, sustain_of,
};
use crate::helpers::keeps_column;
use crate::kernel::{arg_max, first_max, global_max, grid_max, grid_max_upto, lemma_first_max_upto, lemma_grid_max, row_max};
use crate::matrix::{grid, lemma_total_order, nowhere_above, rectangular, set_cell, total, width};
use crate::note_event_frames::NoteEventFrame;

verus! {

/// The first greatest cell among the first `n` rows of `e`, where the cells
/// are read row by row.
pub open spec fn peak_cell_upto(e: Seq<Seq<u32>>, n: int) -> (int, int)
    decreases n,
{
    if n <= 0 {
        (0, 0)
    } else {
        let best = peak_cell_upto(e, n - 1);
        let c = first_max(e[n - 1]);
        if e[n - 1][c] > e[best.0][best.1] {
            (n - 1, c)
        } else {
            best
        }
    }
}

/// The first greatest cell of `e`, where the cells are read row by row.
pub open spec fn peak_cell(e: Seq<Seq<u32>>) -> (int, int) {
    peak_cell_upto(e, e.len() as int)
}

/// The matrix `e` with the cell at row `mid`, column `f` set to 0, and with
/// the columns `f - 1`, `f` and `f + 1` set to 0 in the other rows from
/// `low` up to `high`.
pub open spec fn clear_span(e: Seq<Seq<u32>>, low: int, mid: int, high: int, f: int) -> Seq<Seq<u32>> {
    Seq::new(
        e.len(),
        |r: int|
            Seq::new(
                e[r].len(),
                |c: int|
                    if r == mid && c == f {
                        0u32
                    } else if low <= r < high && r != mid && f - 1 <= c <= f + 1 {
                        0u32
                    } else {
                        e[r][c]
                    },
            ),
    )
}

/// Takes the strongest remaining cell as the middle of a note, follows the
/// note down and up its column, removes its energy, and records it where
/// it is long enough.
pub open spec fn melodia_step(frames: Seq<Seq<u32>>, state: DecodeState, s: Sustain) -> DecodeState {
    let e = state.energy;
    let (mid, f) = peak_cell(e);
    let (down, silent_down) = sustain_forward(e, f, mid + 1, 0, s);
    let (up, silent_up) = sustain_backward(e, f, mid - 1, 0, s);
    let end = down - 1 - silent_down;
    let start = up + 1 + silent_up;
    DecodeState {
        energy: clear_span(e, up + 1, mid, down, f),
        notes: if end - start <= s.min_note_len {
            state.notes
        } else {
            state.notes.push(note_at(frames, f, start, end))
        },
    }
}

/// Repeats `melodia_step` for as long as the strongest remaining cell
/// exceeds the frame threshold.
pub open spec fn melodia_pass(frames: Seq<Seq<u32>>, state: DecodeState, s: Sustain) -> DecodeState
    decreases total(state.energy),
    when s.frame_thresh >= 0 && rectangular(state.energy)
    via melodia_pass_terminates
{
    if grid_max(state.energy) as int > s.frame_thresh {
        melodia_pass(frames, melodia_step(frames, state, s), s)
    } else {
        state
    }
}

/// The first greatest cell of a matrix with cells holds its greatest value.
pub proof fn lemma_peak_cell_upto(e: Seq<Seq<u32>>, n: int)
    requires
        rectangular(e),
        width(e) > 0,
        0 <= n <= e.len(),
        e.len() > 0,
    ensures
        0 <= peak_cell_upto(e, n).0 < e.len(),
        0 <= peak_cell_upto(e, n).1 < width(e),
        n > 0 ==> peak_cell_upto(e, n).0 < n,
        n > 0 ==> e[peak_cell_upto(e, n).0][peak_cell_upto(e, n).1] == grid_max_upto(e, n),
        n == 0 ==> peak_cell_upto(e, n) == (0int, 0int),
    decreases n,
{
    if n > 0 {
        lemma_peak_cell_upto(e, n - 1);
        let row = e[n - 1];
        assert(row.len() == width(e));
        assert(e[0].len() == width(e));
        lemma_first_max_upto(row, row.len() as int);
        let best = peak_cell_upto(e, n - 1);
        let c = first_max(row);
        assert(e[best.0].len() == width(e));
        assert(row_max(row) == row[c]);
        assert(e[n - 1][c] == row[c]);
        if n == 1 {
            assert(best == (0int, 0int));
            assert(row[0] <= row[c]);
            assert(grid_max_upto(e, 0) == 0);
            assert(grid_max_upto(e, 1) == row[c]);
        } else {
            assert(e[best.0][best.1] == grid_max_upto(e, n - 1));
        }
    }
}

/// `clear_span` keeps the shape of a matrix, raises no cell, and keeps dark
/// what was dark.
pub proof fn lemma_clear_span(
    e: Seq<Seq<u32>>,
    low: int,
    mid: int,
    high: int,
    f: int,
    max_pitch: Option<usize>,
    min_pitch: Option<usize>,
)
    requires
        rectangular(e),
    ensures
        rectangular(clear_span(e, low, mid, high, f)),
        width(clear_span(e, low, mid, high, f)) == width(e),
        clear_span(e, low, mid, high, f).len() == e.len(),
        nowhere_above(clear_span(e, low, mid, high, f), e),
        dark_outside_gate(e, max_pitch, min_pitch) ==> dark_outside_gate(
            clear_span(e, low, mid, high, f),
            max_pitch,
            min_pitch,
        ),
{
    let b = clear_span(e, low, mid, high, f);
    assert forall|i: int| 0 <= i < b.len() implies (#[trigger] b[i]).len() == width(e) by {
        assert(e[i].len() == width(e));
    }
    assert forall|i: int| 0 <= i < e.len() implies (#[trigger] e[i]).len() == b[i].len() by {}
}

/// A step taken while a cell exceeds a threshold that is not negative
/// lowers the sum of the remaining energy.
pub proof fn lemma_melodia_step_consumes(frames: Seq<Seq<u32>>, state: DecodeState, s: Sustain)
    requires
        s.frame_thresh >= 0,
        rectangular(state.energy),
        grid_max(state.energy) as int > s.frame_thresh,
    ensures
        total(melodia_step(frames, state, s).energy) < total(state.energy),
        rectangular(melodia_step(frames, state, s).energy),
{
    let e = state.energy;
    lemma_grid_max(e);
    let (wr, wc) = choose|r: int, c: int| 0 <= r < e.len() && 0 <= c < e[r].len() && e[r][c] == grid_max(e);
    assert(e[wr].len() == width(e));
    lemma_peak_cell_upto(e, e.len() as int);
    let (mid, f) = peak_cell(e);
    let (down, silent_down) = sustain_forward(e, f, mid + 1, 0, s);
    let (up, silent_up) = sustain_backward(e, f, mid - 1, 0, s);
    let after = clear_span(e, up + 1, mid, down, f);
    lemma_clear_span(e, up + 1, mid, down, f, None, None);
    assert(e[mid].len() == width(e));
    assert(after[mid][f] == 0);
    lemma_total_order(after, e, mid, f);
}

#[via_fn]
proof fn melodia_pass_terminates(frames: Seq<Seq<u32>>, state: DecodeState, s: Sustain) {
    if grid_max(state.energy) as int > s.frame_thresh {
        lemma_melodia_step_consumes(frames, state, s);
    }
}

fn find_peak(energy: &Vec<Vec<u32>>) -> (peak: (usize, usize))
    requires
        rectangular(grid(energy@)),
        energy@.len() > 0,
        width(grid(energy@)) > 0,
    ensures
        (peak.0 as int, peak.1 as int) == peak_cell(grid(energy@)),
        peak.0 < energy@.len(),
        peak.1 < width(grid(energy@)),
        energy@[peak.0 as int]@[peak.1 as int] == grid_max(grid(energy@)),
{
    let ghost g = grid(energy@);
    let mut max_row: usize = 0;
    let mut max_col: usize = 0;
    let mut row_idx: usize = 0;
    while row_idx < energy.len()
        invariant
            row_idx <= energy@.len(),
            g == grid(energy@),
            rectangular(g),
            energy@.len() > 0,
            width(g) > 0,
            (max_row as int, max_col as int) == peak_cell_upto(g, row_idx as int),
            max_row < energy@.len(),
            max_col < width(g),
        decreases energy.len() - row_idx,
    {
        proof {
            lemma_peak_cell_upto(g, row_idx + 1);
        }
        assert(g[row_idx as int] == energy@[row_idx as int]@);
        assert(g[max_row as int] == energy@[max_row as int]@);
        assert(g[row_idx as int].len() == width(g));
        assert(g[max_row as int].len() == width(g));
        match arg_max(&energy[row_idx]) {
            Some(col_max_idx) => {
                if energy[row_idx][col_max_idx] > energy[max_row][max_col] {
                    max_row = row_idx;
                    max_col = col_max_idx;
                }
            },
            None => {},
        }
        row_idx += 1;
    }
    proof {
        lemma_peak_cell_upto(g, g.len() as int);
        assert(g[max_row as int] == energy@[max_row as int]@);
    }
    (max_row, max_col)
}

fn melodia_step_run(
    frames: &Vec<Vec<u32>>,
    energy: &mut Vec<Vec<u32>>,
    notes: &mut Vec<NoteEventFrame>,
    frame_thresh: u128,
    min_note_len: usize,
    energy_tolerance: usize,
    Ghost(max_pitch): Ghost<Option<usize>>,
    Ghost(min_pitch): Ghost<Option<usize>>,
)
    requires
        rectangular(grid(frames@)),
        rectangular(grid(old(energy)@)),
        old(energy)@.len() == frames@.len(),
        width(grid(old(energy)@)) == width(grid(frames@)),
        width(grid(frames@)) + MIDI_OFFSET <= usize::MAX,
        dark_outside_gate(grid(old(energy)@), max_pitch, min_pitch),
        all_decoded(
            old(notes)@,
            frames@.len() as int,
            width(grid(frames@)) as int,
            grid_max(grid(frames@)) as int,
            min_note_len as int,
            max_pitch,
            min_pitch,
        ),
        grid_max(grid(old(energy)@)) as int > frame_thresh,
    ensures
        state_of(final(energy)@, final(notes)@) == melodia_step(
            grid(frames@),
            state_of(old(energy)@, old(notes)@),
            sustain_of(frame_thresh, min_note_len, energy_tolerance),
        ),
        rectangular(grid(final(energy)@)),
        final(energy)@.len() == frames@.len(),
        width(grid(final(energy)@)) == width(grid(frames@)),
        dark_outside_gate(grid(final(energy)@), max_pitch, min_pitch),
        all_decoded(
            final(notes)@,
            frames@.len() as int,
            width(grid(frames@)) as int,
            grid_max(grid(frames@)) as int,
            min_note_len as int,
            max_pitch,
            min_pitch,
        ),
{
    let ghost s = sustain_of(frame_thresh, min_note_len, energy_tolerance);
    let ghost g0 = grid(energy@);
    let ghost cols = width(g0);
    let n_frames: usize = energy.len();
    proof {
        lemma_grid_max(g0);
        let (wr, wc) = choose|r: int, c: int|
            0 <= r < g0.len() && 0 <= c < g0[r].len() && g0[r][c] == grid_max(g0);
        assert(g0[wr].len() == width(g0));
    }
    let (i_mid, freq_idx) = find_peak(energy);
    assert(g0[i_mid as int] == energy@[i_mid as int]@);
    assert(g0[i_mid as int].len() == cols);
    assert(g0[i_mid as int][freq_idx as int] > 0);
    assert(keeps_column(freq_idx as int, max_pitch, min_pitch));
    set_cell(energy, i_mid, freq_idx, 0);
    assert(grid(energy@) =~~= clear_span(g0, i_mid as int, i_mid as int, i_mid + 1, freq_idx as int));

    // Downwards from the middle.
    let mut i: usize = i_mid + 1;
    let mut k: usize = 0;
    while i < n_frames - 1 && k < energy_tolerance
        invariant
            i_mid + 1 <= i,
            i <= n_frames - 1 || i == i_mid + 1,
            i_mid < n_frames,
            k <= i - (i_mid + 1),
            n_frames == g0.len(),
            energy@.len() == n_frames,
            rectangular(g0),
            cols == width(g0),
            freq_idx < cols,
            s == sustain_of(frame_thresh, min_note_len, energy_tolerance),
            grid(energy@) == clear_span(g0, i_mid as int, i_mid as int, i as int, freq_idx as int),
            sustain_forward(g0, freq_idx as int, i as int, k as int, s) == sustain_forward(
                g0,
                freq_idx as int,
                i_mid + 1,
                0,
                s,
            ),
        decreases n_frames - i,
    {
        let ghost now = grid(energy@);
        proof {
            lemma_clear_span(g0, i_mid as int, i_mid as int, i as int, freq_idx as int, None, None);
        }
        assert(now[i as int] == energy@[i as int]@);
        assert(g0[i as int].len() == cols);
        assert(now[i as int][freq_idx as int] == g0[i as int][freq_idx as int]);
        let ghost before = (i as int, k as int);
        if (energy[i][freq_idx] as u128) < frame_thresh {
            k += 1;
        } else {
            k = 0;
        }
        clear_band_rows(energy, i, i + 1, freq_idx);
        i += 1;
        assert(sustain_forward(g0, freq_idx as int, before.0, before.1, s) == sustain_forward(
            g0,
            freq_idx as int,
            i as int,
            k as int,
            s,
        ));
        assert(grid(energy@) =~~= clear_span(g0, i_mid as int, i_mid as int, i as int, freq_idx as int));
    }
    let i_end: usize = i - 1 - k;
    let down: usize = i;
    let ghost silent_down = k;

    // Upwards from the middle; `above` is one more than the row looked at next.
    let mut above: usize = i_mid;
    k = 0;
    while above > 1 && k < energy_tolerance
        invariant
            above <= i_mid,
            i_mid < n_frames,
            i_mid < down,
            k <= i_mid - above,
            n_frames == g0.len(),
            energy@.len() == n_frames,
            rectangular(g0),
            cols == width(g0),
            freq_idx < cols,
            s == sustain_of(frame_thresh, min_note_len, energy_tolerance),
            grid(energy@) == clear_span(g0, above as int, i_mid as int, down as int, freq_idx as int),
            sustain_backward(g0, freq_idx as int, above - 1, k as int, s) == sustain_backward(
                g0,
                freq_idx as int,
                i_mid - 1,
                0,
                s,
            ),
        decreases above,
    {
        let ghost now = grid(energy@);
        proof {
            lemma_clear_span(g0, above as int, i_mid as int, down as int, freq_idx as int, None, None);
        }
        let row: usize = above - 1;
        assert(now[row as int] == energy@[row as int]@);
        assert(g0[row as int].len() == cols);
        assert(now[row as int][freq_idx as int] == g0[row as int][freq_idx as int]);
        let ghost before = (row as int, k as int);
        if (energy[row][freq_idx] as u128) < frame_thresh {
            k += 1;
        } else {
            k = 0;
        }
        clear_band_rows(energy, row, row + 1, freq_idx);
        above = row;
        assert(sustain_backward(g0, freq_idx as int, before.0, before.1, s) == sustain_backward(
            g0,
            freq_idx as int,
            above - 1,
            k as int,
            s,
        ));
        assert(grid(energy@) =~~= clear_span(g0, above as int, i_mid as int, down as int, freq_idx as int));
    }
    let i_start: usize = above + k;
    proof {
        lemma_clear_span(g0, above as int, i_mid as int, down as int, freq_idx as int, max_pitch, min_pitch);
        assert(sustain_backward(g0, freq_idx as int, above - 1, k as int, s) == (above - 1, k as int));
        assert(sustain_forward(g0, freq_idx as int, down as int, silent_down as int, s) == (down as int, silent_down as int));
    }
    if i_end - i_start > min_note_len {
        push_note(
            notes,
            frames,
            freq_idx,
            i_start,
            i_end,
            Ghost(min_note_len as int),
            Ghost(max_pitch),
            Ghost(min_pitch),
        );
    }
}

pub(crate) fn melodia_pass_run(
    frames: &Vec<Vec<u32>>,
    energy: &mut Vec<Vec<u32>>,
    notes: &mut Vec<NoteEventFrame>,
    frame_thresh: u128,
    min_note_len: usize,
    energy_tolerance: usize,
    Ghost(max_pitch): Ghost<Option<usize>>,
    Ghost(min_pitch): Ghost<Option<usize>>,
)
    requires
        rectangular(grid(frames@)),
        rectangular(grid(old(energy)@)),
        old(energy)@.len() == frames@.len(),
        width(grid(old(energy)@)) == width(grid(frames@)),
        width(grid(frames@)) + MIDI_OFFSET <= usize::MAX,
        dark_outside_gate(grid(old(energy)@), max_pitch, min_pitch),
        all_decoded(
            old(notes)@,
            frames@.len() as int,
            width(grid(frames@)) as int,
            grid_max(grid(frames@)) as int,
            min_note_len as int,
            max_pitch,
            min_pitch,
        ),
    ensures
        state_of(final(energy)@, final(notes)@) == melodia_pass(
            grid(frames@),
            state_of(old(energy)@, old(notes)@),
            sustain_of(frame_thresh, min_note_len, energy_tolerance),
        ),
        all_decoded(
            final(notes)@,
            frames@.len() as int,
            width(grid(frames@)) as int,
            grid_max(grid(frames@)) as int,
            min_note_len as int,
            max_pitch,
            min_pitch,
        ),
{
    let ghost s = sustain_of(frame_thresh, min_note_len, energy_tolerance);
    let ghost fg = grid(frames@);
    let ghost goal = melodia_pass(fg, state_of(energy@, notes@), s);
    while (global_max(energy) as u128) > frame_thresh
        invariant
            fg == grid(frames@),
            s == sustain_of(frame_thresh, min_note_len, energy_tolerance),
            rectangular(fg),
            rectangular(grid(energy@)),
            energy@.len() == frames@.len(),
            width(grid(energy@)) == width(fg),
            width(fg) + MIDI_OFFSET <= usize::MAX,
            dark_outside_gate(grid(energy@), max_pitch, min_pitch),
            all_decoded(
                notes@,
                frames@.len() as int,
                width(fg) as int,
                grid_max(fg) as int,
                min_note_len as int,
                max_pitch,
                min_pitch,
            ),
            melodia_pass(fg, state_of(energy@, notes@), s) == goal,
        decreases total(grid(energy@)),
    {
        proof {
            lemma_melodia_step_consumes(fg, state_of(energy@, notes@), s);
        }
        melodia_step_run(
            frames,
            energy,
            notes,
            frame_thresh,
            min_note_len,
            energy_tolerance,
            Ghost(max_pitch),
            Ghost(min_pitch),
        );
    }
}

} // verus!
