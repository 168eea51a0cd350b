//! Decoding of frame and onset activations into note events.

use vstd::prelude::*;
use crate::constants::MIDI_OFFSET;
use crate::energy::{DecodeState, Sustain, all_decoded, dark_outside_gate, decoded_note, sustain_of};
use crate::error::PipelineError;
use crate::frequency::{
    at_or_above, at_or_below, ceil_pitch_of, is_ceil_pitch_of, is_pitch_of, lemma_at_or_above_lower,
    lemma_at_or_below_higher, pitch_of,
};
use crate::helpers::{
    constrain_columns, gate_bottom, gate_top, gated, get_inferred_onsets, highest_pitch, inferred_onsets_result,
    keeps_column, lemma_gated_shape, lemma_inferred_onsets, lowest_pitch,
};
use crate::kernel::{
    arg_rel_max, cells_above, grid_max, is_rel_max, lemma_grid_max_order, mean_std_dev, mean_std_result,
    where_greater_than_axis1,
};
use crate::matrix::{copy_matrix, grid, nowhere_above, rectangular, same_shape, set_cell, shape, width, zeros};
use crate::melodia::{melodia_pass, melodia_pass_run};
use crate::onset_pass::{onset_pass, onset_pass_run};

verus! {


/// A note in the frame domain.
#[derive(Debug)]
pub struct NoteEventFrame {
    /// Frame at which the note starts.
    pub start_frame: usize,
    /// Number of frames the note lasts.
    pub duration_frames: usize,
    /// MIDI number of the pitch.
    pub pitch_midi: usize,
    /// Mean activation over the note, in fixed point.
    pub amplitude: u32,
    /// One signed contour-bin offset per frame of the note, once estimated.
    pub pitch_bends: Option<Vec<i64>>,
}

/// The mathematical value of a [`NoteEventFrame`].
pub struct FrameNote {
    pub start_frame: int,
    pub duration_frames: int,
    pub pitch_midi: int,
    pub amplitude: int,
    pub pitch_bends: Option<Seq<i64>>,
}

impl View for NoteEventFrame {
    type V = FrameNote;

    open spec fn view(&self) -> FrameNote {
        FrameNote {
            start_frame: self.start_frame as int,
            duration_frames: self.duration_frames as int,
            pitch_midi: self.pitch_midi as int,
            amplitude: self.amplitude as int,
            pitch_bends: match self.pitch_bends {
                Some(bends) => Some(bends@),
                None => None,
            },
        }
    }
}

impl Clone for NoteEventFrame {
    fn clone(&self) -> (copy: Self)
        ensures
            copy@ == self@,
    {
        NoteEventFrame {
            start_frame: self.start_frame,
            duration_frames: self.duration_frames,
            pitch_midi: self.pitch_midi,
            amplitude: self.amplitude,
            pitch_bends: match &self.pitch_bends {
                Some(bends) => Some(bends.clone()),
                None => None,
            },
        }
    }
}

/// The mathematical values of a sequence of notes.
pub open spec fn note_views(notes: Seq<NoteEventFrame>) -> Seq<FrameNote> {
    notes.map_values(|n: NoteEventFrame| n@)
}

/// The matrix that keeps the cells of `onsets` that are local maxima of
/// their column within two rows, and holds 0 elsewhere.
pub open spec fn peak_matrix(onsets: Seq<Seq<u32>>) -> Seq<Seq<u32>> {
    Seq::new(
        onsets.len(),
        |r: int|
            Seq::new(
                onsets[r].len(),
                |c: int|
                    if is_rel_max(onsets, r, c, 2) {
                        onsets[r][c]
                    } else {
                        0u32
                    },
            ),
    )
}

/// The cells at which a note may start: the local maxima of `onsets` that
/// exceed `onset_thresh`, in row-major order.
pub open spec fn onset_candidates(onsets: Seq<Seq<u32>>, onset_thresh: u32) -> Seq<(int, int)> {
    cells_above(peak_matrix(onsets), onset_thresh)
}

/// The two matrices are rectangles of one shape, narrow enough for every
/// column to have a pitch number.
pub open spec fn decode_shape_ok(frames: Seq<Seq<u32>>, onsets: Seq<Seq<u32>>) -> bool {
    &&& rectangular(frames)
    &&& same_shape(frames, onsets)
    &&& width(frames) + MIDI_OFFSET <= usize::MAX
}

/// The frame threshold in force: the one given, or else the mean of the
/// frames plus their standard deviation.
pub open spec fn frame_threshold(frames: Seq<Seq<u32>>, frame_thresh: Option<u32>) -> Result<int, PipelineError> {
    match frame_thresh {
        Some(t) => Ok(t as int),
        None => match mean_std_result(frames) {
            Ok((mean, std_dev)) => Ok((mean + std_dev) as int),
            Err(e) => Err(e),
        },
    }
}

/// The onsets in force: the ones given, or else those raised by the rises
/// of the frames over one and two rows.
pub open spec fn effective_onsets(frames: Seq<Seq<u32>>, onsets: Seq<Seq<u32>>, infer_onsets: bool) -> Result<
    Seq<Seq<u32>>,
    PipelineError,
> {
    if infer_onsets {
        inferred_onsets_result(onsets, frames, 2)
    } else {
        Ok(onsets)
    }
}

/// The notes decoded from gated frames and effective onsets: first the
/// notes that start at the onset candidates, the last candidate first;
/// then, where `melodia_trick` is set, the notes found in the energy that
/// these have left.
pub open spec fn decoded_notes(
    frames: Seq<Seq<u32>>,
    onsets: Seq<Seq<u32>>,
    onset_thresh: u32,
    s: Sustain,
    melodia_trick: bool,
) -> Seq<FrameNote> {
    let candidates = onset_candidates(onsets, onset_thresh);
    let first = onset_pass(
        frames,
        DecodeState { energy: frames, notes: Seq::empty() },
        candidates,
        candidates.len() as int,
        s,
    );
    if melodia_trick {
        melodia_pass(frames, first, s).notes
    } else {
        first.notes
    }
}

/// What `output_to_notes_poly` returns.
pub open spec fn decode_result(
    frames: Seq<Seq<u32>>,
    onsets: Seq<Seq<u32>>,
    onset_thresh: u32,
    frame_thresh: Option<u32>,
    min_note_len: usize,
    infer_onsets: bool,
    max_pitch: Option<usize>,
    min_pitch: Option<usize>,
    melodia_trick: bool,
    energy_tolerance: usize,
) -> Result<Seq<FrameNote>, PipelineError> {
    if !decode_shape_ok(frames, onsets) {
        Err(PipelineError::Shape)
    } else {
        match frame_threshold(frames, frame_thresh) {
            Err(e) => Err(e),
            Ok(thresh) => {
                let f = gated(frames, max_pitch, min_pitch);
                let o = gated(onsets, max_pitch, min_pitch);
                match effective_onsets(f, o, infer_onsets) {
                    Err(e) => Err(e),
                    Ok(effective) => Ok(
                        decoded_notes(
                            f,
                            effective,
                            onset_thresh,
                            Sustain {
                                frame_thresh: thresh,
                                min_note_len: min_note_len as int,
                                energy_tolerance: energy_tolerance as int,
                            },
                            melodia_trick,
                        ),
                    ),
                }
            },
        }
    }
}

fn pick_peaks(onsets: &Vec<Vec<u32>>) -> (peaks: Vec<Vec<u32>>)
    requires
        rectangular(grid(onsets@)),
    ensures
        grid(peaks@) == peak_matrix(grid(onsets@)),
{
    let ghost o = grid(onsets@);
    let rows: usize = onsets.len();
    let cols: usize = if rows == 0 {
        0
    } else {
        onsets[0].len()
    };
    let mut peaks: Vec<Vec<u32>> = zeros(rows, cols);
    let maxima: Vec<(usize, usize)> = arg_rel_max(onsets, 2);
    let mut k: usize = 0;
    while k < maxima.len()
        invariant
            k <= maxima@.len(),
            o == grid(onsets@),
            rectangular(o),
            rows == o.len(),
            cols == width(o),
            peaks@.len() == rows,
            forall|i: int| 0 <= i < rows ==> (#[trigger] grid(peaks@)[i]).len() == cols,
            forall|q: int|
                0 <= q < maxima@.len() ==> {
                    let p = #[trigger] maxima@[q];
                    p.0 < rows && p.1 < cols && is_rel_max(o, p.0 as int, p.1 as int, 2)
                },
            forall|i: int, j: int|
                0 <= i < rows && 0 <= j < cols ==> (#[trigger] grid(peaks@)[i][j]) == (if exists|q: int|
                    0 <= q < k && maxima@[q] == (i as usize, j as usize) {
                    o[i][j]
                } else {
                    0u32
                }),
        decreases maxima.len() - k,
    {
        let (row, col) = maxima[k];
        assert(maxima@[k as int] == (row, col));
        assert(o[row as int] == onsets@[row as int]@);
        assert(o[row as int].len() == cols);
        assert(grid(peaks@)[row as int].len() == cols);
        assert(grid(peaks@)[row as int] == peaks@[row as int]@);
        let ghost before = grid(peaks@);
        set_cell(&mut peaks, row, col, onsets[row][col]);
        assert forall|i: int, j: int| 0 <= i < rows && 0 <= j < cols implies (#[trigger] grid(peaks@)[i][j]) == (if exists|
            q: int,
        |
            0 <= q < k + 1 && maxima@[q] == (i as usize, j as usize) {
            o[i][j]
        } else {
            0u32
        }) by {
            assert(before[i].len() == cols);
            if i == row && j == col {
                assert(maxima@[k as int] == (i as usize, j as usize));
            } else {
                assert(grid(peaks@)[i][j] == before[i][j]);
                if exists|q: int| 0 <= q < k + 1 && maxima@[q] == (i as usize, j as usize) {
                    let q = choose|q: int| 0 <= q < k + 1 && maxima@[q] == (i as usize, j as usize);
                    assert(q < k);
                }
            }
        }
        k += 1;
    }
    proof {
        let want = peak_matrix(o);
        assert forall|i: int, j: int| 0 <= i < rows && 0 <= j < cols implies grid(peaks@)[i][j] == want[i][j] by {
            assert(o[i].len() == cols);
            if is_rel_max(o, i, j, 2) {
                assert(maxima@.contains((i as usize, j as usize)));
                let q = choose|q: int| 0 <= q < maxima@.len() && maxima@[q] == (i as usize, j as usize);
                assert(0 <= q < k && maxima@[q] == (i as usize, j as usize));
            } else {
                if exists|q: int| 0 <= q < k && maxima@[q] == (i as usize, j as usize) {
                    let q = choose|q: int| 0 <= q < k && maxima@[q] == (i as usize, j as usize);
                    let p = maxima@[q];
                    assert(is_rel_max(o, p.0 as int, p.1 as int, 2));
                }
            }
        }
        assert forall|i: int| 0 <= i < rows implies (#[trigger] grid(peaks@)[i]).len() == want[i].len() by {
            assert(o[i].len() == cols);
        }
        assert(grid(peaks@) =~~= want);
    }
    peaks
}

fn decode_columns(
    frames: Vec<Vec<u32>>,
    onsets: Vec<Vec<u32>>,
    onset_thresh: u32,
    frame_thresh: Option<u32>,
    min_note_len: usize,
    infer_onsets: bool,
    max_pitch: Option<usize>,
    min_pitch: Option<usize>,
    melodia_trick: bool,
    energy_tolerance: usize,
) -> (result: Result<Vec<NoteEventFrame>, PipelineError>)
    ensures
        match result {
            Ok(notes) => {
                &&& decode_result(
                    grid(frames@),
                    grid(onsets@),
                    onset_thresh,
                    frame_thresh,
                    min_note_len,
                    infer_onsets,
                    max_pitch,
                    min_pitch,
                    melodia_trick,
                    energy_tolerance,
                ) == Ok::<Seq<FrameNote>, PipelineError>(note_views(notes@))
                &&& all_decoded(
                    notes@,
                    frames@.len() as int,
                    width(grid(frames@)) as int,
                    grid_max(grid(frames@)) as int,
                    min_note_len as int,
                    max_pitch,
                    min_pitch,
                )
            },
            Err(e) => decode_result(
                grid(frames@),
                grid(onsets@),
                onset_thresh,
                frame_thresh,
                min_note_len,
                infer_onsets,
                max_pitch,
                min_pitch,
                melodia_trick,
                energy_tolerance,
            ) == Err::<Seq<FrameNote>, PipelineError>(e),
        },
{
    let ghost f0 = grid(frames@);
    let ghost o0 = grid(onsets@);
    let mut frames = frames;
    let mut onsets = onsets;
    let (rows, cols) = match shape(&frames) {
        Some(dims) => dims,
        None => {
            return Err(PipelineError::Shape);
        },
    };
    match shape(&onsets) {
        Some((onset_rows, onset_cols)) => {
            if rows != onset_rows || (rows > 0 && cols != onset_cols) {
                proof {
                    if rows == onset_rows {
                        assert(f0[0].len() != o0[0].len());
                    }
                }
                return Err(PipelineError::Shape);
            }
            assert(same_shape(f0, o0)) by {
                assert forall|i: int| 0 <= i < f0.len() implies (#[trigger] f0[i]).len() == o0[i].len() by {
                    assert(o0[i].len() == width(o0));
                }
            }
        },
        None => {
            proof {
                if same_shape(f0, o0) {
                    assert forall|i: int| 0 <= i < o0.len() implies (#[trigger] o0[i]).len() == width(o0) by {
                        assert(f0[i].len() == o0[i].len());
                        assert(f0[0].len() == o0[0].len());
                    }
                }
            }
            return Err(PipelineError::Shape);
        },
    }
    if cols > usize::MAX - MIDI_OFFSET {
        return Err(PipelineError::Shape);
    }
    let inferred_frame_thresh: u128 = match frame_thresh {
        Some(t) => t as u128,
        None => match mean_std_dev(&frames) {
            Ok((mean, std_dev)) => mean as u128 + std_dev as u128,
            Err(e) => {
                return Err(e);
            },
        },
    };
    let ghost s = sustain_of(inferred_frame_thresh, min_note_len, energy_tolerance);

    constrain_columns(&mut onsets, &mut frames, max_pitch, min_pitch);
    let ghost f = grid(frames@);
    let ghost o = grid(onsets@);
    let ghost dark = Set::new(|c: int| !keeps_column(c, max_pitch, min_pitch));
    proof {
        lemma_gated_shape(f0, max_pitch, min_pitch);
        lemma_gated_shape(o0, max_pitch, min_pitch);
        assert(same_shape(f, o)) by {
            assert forall|i: int| 0 <= i < f.len() implies (#[trigger] f[i]).len() == o[i].len() by {
                assert(f0[i].len() == f[i].len());
                assert(o0[i].len() == o[i].len());
                assert(f0[i].len() == o0[i].len());
            }
        }
        assert(width(o) == width(f)) by {
            if f.len() > 0 {
                assert(f[0].len() == o[0].len());
            }
        }
        assert(rectangular(o)) by {
            assert forall|i: int| 0 <= i < o.len() implies (#[trigger] o[i]).len() == width(o) by {
                assert(f[i].len() == o[i].len());
                assert(f[i].len() == width(f));
            }
        }
    }

    let effective: Vec<Vec<u32>> = if infer_onsets {
        match get_inferred_onsets(&onsets, &frames, 2) {
            Ok(m) => {
                proof {
                    lemma_inferred_onsets(o, f, 2, dark);
                }
                m
            },
            Err(e) => {
                return Err(e);
            },
        }
    } else {
        onsets
    };
    let ghost eff = grid(effective@);
    assert(rectangular(eff) && eff.len() == f.len() && width(eff) == width(f));
    assert(forall|r: int, c: int|
        0 <= r < eff.len() && 0 <= c < eff[r].len() && !keeps_column(c, max_pitch, min_pitch) ==> (#[trigger] eff[r][c])
            == 0) by {
        assert forall|r: int, c: int|
            0 <= r < eff.len() && 0 <= c < eff[r].len() && !keeps_column(
                c,
                max_pitch,
                min_pitch,
            ) implies (#[trigger] eff[r][c]) == 0 by {
            assert(dark.contains(c));
            assert(eff[r].len() == width(eff));
            assert(f[r].len() == width(f));
            assert(o[r].len() == width(o));
            assert(o0[r].len() == o[r].len());
        }
    }

    let peak_threshold_matrix: Vec<Vec<u32>> = pick_peaks(&effective);
    let (note_starts, freq_idxs) = where_greater_than_axis1(&peak_threshold_matrix, onset_thresh);
    proof {
        let peaks = grid(peak_threshold_matrix@);
        assert forall|k: int| 0 <= k < note_starts@.len() implies {
            &&& (#[trigger] note_starts@[k]) < frames@.len()
            &&& freq_idxs@[k] < width(f)
            &&& keeps_column(freq_idxs@[k] as int, max_pitch, min_pitch)
        } by {
            let r = note_starts@[k] as int;
            let c = freq_idxs@[k] as int;
            assert(peaks[r] == peak_threshold_matrix@[r]@);
            assert(peaks[r][c] > onset_thresh);
            assert(eff[r].len() == width(eff));
            assert(peaks[r][c] == eff[r][c]);
        }
    }

    let mut remaining_energy: Vec<Vec<u32>> = copy_matrix(&frames);
    assert(dark_outside_gate(grid(remaining_energy@), max_pitch, min_pitch)) by {
        assert forall|r: int, c: int|
            0 <= r < f.len() && 0 <= c < f[r].len() && !keeps_column(c, max_pitch, min_pitch) implies (#[trigger] f[r][c])
            == 0 by {
            assert(f0[r].len() == f[r].len());
        }
    }
    let mut note_events: Vec<NoteEventFrame> = onset_pass_run(
        &frames,
        &mut remaining_energy,
        &note_starts,
        &freq_idxs,
        inferred_frame_thresh,
        min_note_len,
        energy_tolerance,
        Ghost(max_pitch),
        Ghost(min_pitch),
    );
    if melodia_trick {
        melodia_pass_run(
            &frames,
            &mut remaining_energy,
            &mut note_events,
            inferred_frame_thresh,
            min_note_len,
            energy_tolerance,
            Ghost(max_pitch),
            Ghost(min_pitch),
        );
    }
    proof {
        assert(nowhere_above(f, f0)) by {
            assert forall|r: int, c: int| 0 <= r < f0.len() && 0 <= c < f0[r].len() implies (#[trigger] f[r][c])
                <= f0[r][c] by {}
        }
        lemma_grid_max_order(f, f0);
        assert forall|k: int| 0 <= k < note_events@.len() implies decoded_note(
            (#[trigger] note_events@[k])@,
            f0.len() as int,
            width(f0) as int,
            grid_max(f0) as int,
            min_note_len as int,
            max_pitch,
            min_pitch,
        ) by {
            assert(decoded_note(
                note_events@[k]@,
                f.len() as int,
                width(f) as int,
                grid_max(f) as int,
                min_note_len as int,
                max_pitch,
                min_pitch,
            ));
        }
    }
    Ok(note_events)
}

/// The pitch `pitch` lies inside the frequency gate: its frequency is not
/// above `max_freq` and not below `min_freq`, where these are given.
pub open spec fn in_frequency_gate(pitch: int, max_freq: Option<u32>, min_freq: Option<u32>) -> bool {
    &&& max_freq matches Some(top) ==> at_or_above(top as int, pitch as nat)
    &&& min_freq matches Some(bottom) ==> at_or_below(bottom as int, pitch as nat)
}

/// A pitch whose column is kept for two bounding frequencies sounds
/// between them.
pub proof fn lemma_column_in_frequency_gate(pitch: int, max_freq: Option<u32>, min_freq: Option<u32>)
    requires
        pitch >= MIDI_OFFSET,
        keeps_column(pitch - MIDI_OFFSET, gate_top(max_freq), gate_bottom(min_freq)),
        max_freq matches Some(top) ==> is_pitch_of(pitch_of(top as int), top as int) && pitch_of(top as int) < 240,
        min_freq matches Some(bottom) ==> is_ceil_pitch_of(ceil_pitch_of(bottom as int), bottom as int)
            && ceil_pitch_of(bottom as int) <= 240,
    ensures
        in_frequency_gate(pitch, max_freq, min_freq),
{
    match max_freq {
        Some(top) => {
            let reached = pitch_of(top as int);
            assert(gate_top(max_freq) == Some(reached as usize));
            assert(pitch <= reached);
            lemma_at_or_above_lower(top as int, pitch as nat, reached);
        },
        None => {},
    }
    match min_freq {
        Some(bottom) => {
            let reaching = ceil_pitch_of(bottom as int);
            assert(gate_bottom(min_freq) == Some(reaching as usize));
            assert(pitch >= reaching);
            lemma_at_or_below_higher(bottom as int, reaching, pitch as nat);
        },
        None => {},
    }
}

/// Decodes frame and onset activations into notes.
///
/// The columns outside the frequency gate are silenced first: those of
/// the pitches whose frequency is above `max_freq` or below `min_freq`,
/// both given in millihertz. A note may start at every cell of the onsets
/// that is a local maximum of its column and exceeds `onset_thresh`; the
/// candidates are handled from the last to the first in row-major order.
/// A note is followed down its column until `energy_tolerance` frames in a
/// row have stayed below the frame threshold; it ends at the last row
/// before these, lasts the rows from its start to its end, and is kept if
/// these are more than `min_note_len`. Its energy is then removed from a
/// working copy of the frames, in its own column and in the two beside it,
/// and its amplitude is the mean of the frames over the rows it lasts. With `melodia_trick`, notes are then
/// taken from what energy is left, strongest cell first, until no cell
/// exceeds the frame threshold.
///
/// Where `frame_thresh` is not given, the mean of the frames plus their
/// standard deviation takes its place. With `infer_onsets`, sharp rises of
/// the frames count as onsets too; frames that rise nowhere add none.
pub fn output_to_notes_poly(
    frames: Vec<Vec<u32>>,
    onsets: Vec<Vec<u32>>,
    onset_thresh: u32,
    frame_thresh: Option<u32>,
    min_note_len: usize,
    infer_onsets: bool,
    max_freq: Option<u32>,
    min_freq: Option<u32>,
    melodia_trick: bool,
    energy_tolerance: usize,
) -> (result: Result<Vec<NoteEventFrame>, PipelineError>)
    ensures
        match result {
            Ok(notes) => {
                &&& decode_result(
                    grid(frames@),
                    grid(onsets@),
                    onset_thresh,
                    frame_thresh,
                    min_note_len,
                    infer_onsets,
                    gate_top(max_freq),
                    gate_bottom(min_freq),
                    melodia_trick,
                    energy_tolerance,
                ) == Ok::<Seq<FrameNote>, PipelineError>(note_views(notes@))
                &&& all_decoded(
                    notes@,
                    frames@.len() as int,
                    width(grid(frames@)) as int,
                    grid_max(grid(frames@)) as int,
                    min_note_len as int,
                    gate_top(max_freq),
                    gate_bottom(min_freq),
                )
                &&& forall|k: int|
                    0 <= k < notes@.len() ==> in_frequency_gate((#[trigger] notes@[k]).pitch_midi as int, max_freq, min_freq)
            },
            Err(e) => decode_result(
                grid(frames@),
                grid(onsets@),
                onset_thresh,
                frame_thresh,
                min_note_len,
                infer_onsets,
                gate_top(max_freq),
                gate_bottom(min_freq),
                melodia_trick,
                energy_tolerance,
            ) == Err::<Seq<FrameNote>, PipelineError>(e),
        },
{
    let max_pitch: Option<usize> = highest_pitch(max_freq);
    let min_pitch: Option<usize> = lowest_pitch(min_freq);
    let result = decode_columns(
        frames,
        onsets,
        onset_thresh,
        frame_thresh,
        min_note_len,
        infer_onsets,
        max_pitch,
        min_pitch,
        melodia_trick,
        energy_tolerance,
    );
    proof {
        match &result {
            Ok(notes) => {
                assert forall|k: int| 0 <= k < notes@.len() implies in_frequency_gate(
                    (#[trigger] notes@[k]).pitch_midi as int,
                    max_freq,
                    min_freq,
                ) by {
                    assert(decoded_note(
                        notes@[k]@,
                        frames@.len() as int,
                        width(grid(frames@)) as int,
                        grid_max(grid(frames@)) as int,
                        min_note_len as int,
                        max_pitch,
                        min_pitch,
                    ));
                    lemma_column_in_frequency_gate(notes@[k].pitch_midi as int, max_freq, min_freq);
                }
            },
            Err(_) => {},
        }
    }
    result
}

/// Determinism of the decoder: what `output_to_notes_poly` returns is fixed
/// by the cells of the two matrices and by the configuration, so two runs on
/// equal matrices and configuration end alike.
pub proof fn lemma_decoder_deterministic(
    frames: Seq<Seq<u32>>,
    onsets: Seq<Seq<u32>>,
    other_frames: Seq<Seq<u32>>,
    other_onsets: Seq<Seq<u32>>,
    onset_thresh: u32,
    frame_thresh: Option<u32>,
    min_note_len: usize,
    infer_onsets: bool,
    max_pitch: Option<usize>,
    min_pitch: Option<usize>,
    melodia_trick: bool,
    energy_tolerance: usize,
)
    requires
        frames =~~= other_frames,
        onsets =~~= other_onsets,
    ensures
        decode_result(
            frames,
            onsets,
            onset_thresh,
            frame_thresh,
            min_note_len,
            infer_onsets,
            max_pitch,
            min_pitch,
            melodia_trick,
            energy_tolerance,
        ) == decode_result(
            other_frames,
            other_onsets,
            onset_thresh,
            frame_thresh,
            min_note_len,
            infer_onsets,
            max_pitch,
            min_pitch,
            melodia_trick,
            energy_tolerance,
        ),
{
}

} // verus!
