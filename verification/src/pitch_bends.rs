//! Estimation of pitch bends from the contour activations.

use vstd::prelude::*;
use crate::error::PipelineError;
use crate::helpers::{contour_bin, midi_pitch_to_contour_bin};
use crate::matrix::{grid, rectangular, shape, width};
use crate::note_event_frames::{FrameNote, NoteEventFrame, note_views};

verus! {

/// The contour bin around which the bends of a pitch are looked for: the
/// bin of the pitch, and bin 0 for a pitch below the lowest.
pub open spec fn center_bin(pitch_midi: int) -> int {
    if contour_bin(pitch_midi) < 0 {
        0
    } else {
        contour_bin(pitch_midi)
    }
}

/// The first bin of the window of `tolerance` bins around `center`, cut at
/// the lower edge of the matrix.
pub open spec fn window_low(center: int, tolerance: int) -> int {
    if center - tolerance < 0 {
        0
    } else {
        center - tolerance
    }
}

/// The bin behind the last of the window of `tolerance` bins around
/// `center`, cut at the upper edge of a matrix of `cols` columns.
pub open spec fn window_high(center: int, tolerance: int, cols: int) -> int {
    if center + tolerance + 1 > cols {
        cols
    } else {
        center + tolerance + 1
    }
}

/// The activation of bin `c` of `row`, weighted by its distance from
/// `center`; `weights[tolerance]` is the weight of `center` itself.
pub open spec fn weighted(row: Seq<u32>, weights: Seq<u32>, center: int, tolerance: int, c: int) -> int {
    row[c] * weights[c - center + tolerance]
}

/// `bend` is the bend of a frame with the contours `row`: the offset from
/// `center` of the bin of the window with the greatest weighted
/// activation, the first of them where several are equal.
pub open spec fn is_bend(row: Seq<u32>, weights: Seq<u32>, center: int, tolerance: int, bend: int) -> bool {
    let low = window_low(center, tolerance);
    let high = window_high(center, tolerance, row.len() as int);
    let best = center + bend;
    &&& low <= best < high
    &&& forall|c: int|
        low <= c < high ==> #[trigger] weighted(row, weights, center, tolerance, c) <= weighted(
            row,
            weights,
            center,
            tolerance,
            best,
        )
    &&& forall|c: int|
        low <= c < best ==> #[trigger] weighted(row, weights, center, tolerance, c) < weighted(
            row,
            weights,
            center,
            tolerance,
            best,
        )
}

/// The note lies inside a matrix of `rows` rows and `cols` columns, and
/// the window around its pitch holds at least one bin.
pub open spec fn bendable(note: FrameNote, rows: int, cols: int, tolerance: int) -> bool {
    &&& note.start_frame + note.duration_frames <= rows
    &&& window_low(center_bin(note.pitch_midi), tolerance) < window_high(center_bin(note.pitch_midi), tolerance, cols)
}

/// The inputs from which bends can be estimated: a rectangular contour
/// matrix, one weight for every bin of the window, and notes that are all
/// bendable.
pub open spec fn bend_inputs_ok(
    contours: Seq<Seq<u32>>,
    notes: Seq<FrameNote>,
    tolerance: int,
    weights: Seq<u32>,
) -> bool {
    &&& rectangular(contours)
    &&& weights.len() == 2 * tolerance + 1
    &&& forall|k: int|
        0 <= k < notes.len() ==> bendable(
            #[trigger] notes[k],
            contours.len() as int,
            width(contours) as int,
            tolerance,
        )
}

/// `after` is `before` with its bends estimated: the same note, with one
/// bend for each of its frames.
pub open spec fn with_bends(
    before: FrameNote,
    after: FrameNote,
    contours: Seq<Seq<u32>>,
    tolerance: int,
    weights: Seq<u32>,
) -> bool {
    &&& after.start_frame == before.start_frame
    &&& after.duration_frames == before.duration_frames
    &&& after.pitch_midi == before.pitch_midi
    &&& after.amplitude == before.amplitude
    &&& after.pitch_bends matches Some(bends)
    &&& bends.len() == before.duration_frames
    &&& forall|t: int|
        0 <= t < bends.len() ==> is_bend(
            contours[before.start_frame + t],
            weights,
            center_bin(before.pitch_midi),
            tolerance,
            (#[trigger] bends[t]) as int,
        )
}

fn best_bend(row: &Vec<u32>, weights: &Vec<u32>, center: u128, tolerance: usize, low: usize, high: usize) -> (bend:
    i64)
    requires
        weights@.len() == 2 * tolerance + 1,
        center <= 2 * usize::MAX,
        low == window_low(center as int, tolerance as int),
        high == window_high(center as int, tolerance as int, row@.len() as int),
        low < high,
    ensures
        is_bend(row@, weights@, center as int, tolerance as int, bend as int),
{
    let mut best: usize = low;
    let mut best_value: u64 = weigh(row, weights, center, tolerance, low);
    let mut c: usize = low + 1;
    while c < high
        invariant
            low < c <= high,
            low <= best < c,
            high <= row@.len(),
            weights@.len() == 2 * tolerance + 1,
            center <= 2 * usize::MAX,
            low == window_low(center as int, tolerance as int),
            high == window_high(center as int, tolerance as int, row@.len() as int),
            best_value == weighted(row@, weights@, center as int, tolerance as int, best as int),
            forall|q: int|
                low <= q < c ==> #[trigger] weighted(row@, weights@, center as int, tolerance as int, q) <= best_value,
            forall|q: int|
                low <= q < best ==> #[trigger] weighted(row@, weights@, center as int, tolerance as int, q)
                    < best_value,
        decreases high - c,
    {
        let value: u64 = weigh(row, weights, center, tolerance, c);
        if value > best_value {
            best = c;
            best_value = value;
        }
        c += 1;
    }
    assert(weights.len() == weights@.len());
    let offset: i128 = best as i128 - center as i128;
    offset as i64
}

fn weigh(row: &Vec<u32>, weights: &Vec<u32>, center: u128, tolerance: usize, c: usize) -> (value: u64)
    requires
        weights@.len() == 2 * tolerance + 1,
        center <= 2 * usize::MAX,
        window_low(center as int, tolerance as int) <= c < window_high(
            center as int,
            tolerance as int,
            row@.len() as int,
        ),
    ensures
        value == weighted(row@, weights@, center as int, tolerance as int, c as int),
{
    assert(weights.len() == weights@.len());
    let at: usize = (c as i128 - center as i128 + tolerance as i128) as usize;
    assert(row@[c as int] * weights@[at as int] <= 0xFFFF_FFFF * 0xFFFF_FFFF) by (nonlinear_arith)
        requires
            row@[c as int] <= 0xFFFF_FFFF,
            weights@[at as int] <= 0xFFFF_FFFF,
    ;
    (row[c] as u64) * (weights[at] as u64)
}

/// Adds to every note one bend for each of its frames.
///
/// The bend of a frame is looked for in the contours of that frame, in a
/// window of `n_bins_tolerance` bins on either side of the bin of the
/// note's pitch, cut at the edges of the matrix. Every bin of the window
/// is weighted by `weights`, whose middle element belongs to the bin of
/// the pitch; the bend is the offset of the strongest weighted bin from
/// the bin of the pitch.
pub fn add_pitch_bends_to_note_events(
    contours: &Vec<Vec<u32>>,
    notes: &Vec<NoteEventFrame>,
    n_bins_tolerance: usize,
    weights: &Vec<u32>,
) -> (result: Result<Vec<NoteEventFrame>, PipelineError>)
    ensures
        match result {
            Ok(bent) => {
                &&& bend_inputs_ok(grid(contours@), note_views(notes@), n_bins_tolerance as int, weights@)
                &&& bent@.len() == notes@.len()
                &&& forall|k: int|
                    0 <= k < notes@.len() ==> with_bends(
                        notes@[k]@,
                        (#[trigger] bent@[k])@,
                        grid(contours@),
                        n_bins_tolerance as int,
                        weights@,
                    )
            },
            Err(e) => e == PipelineError::Shape && !bend_inputs_ok(
                grid(contours@),
                note_views(notes@),
                n_bins_tolerance as int,
                weights@,
            ),
        },
{
    let ghost g = grid(contours@);
    let ghost tol = n_bins_tolerance as int;
    let (rows, cols) = match shape(contours) {
        Some(dims) => dims,
        None => {
            return Err(PipelineError::Shape);
        },
    };
    assert(weights.len() == weights@.len());
    if n_bins_tolerance > (usize::MAX - 1) / 2 || weights.len() != 2 * n_bins_tolerance + 1 {
        return Err(PipelineError::Shape);
    }
    let mut bent: Vec<NoteEventFrame> = Vec::new();
    let mut k: usize = 0;
    while k < notes.len()
        invariant
            k <= notes@.len(),
            g == grid(contours@),
            tol == n_bins_tolerance as int,
            rectangular(g),
            rows == g.len(),
            cols == width(g),
            weights@.len() == 2 * n_bins_tolerance + 1,
            bent@.len() == k,
            forall|q: int|
                0 <= q < k ==> bendable(#[trigger] note_views(notes@)[q], rows as int, cols as int, tol),
            forall|q: int| 0 <= q < k ==> with_bends(notes@[q]@, (#[trigger] bent@[q])@, g, tol, weights@),
        decreases notes.len() - k,
    {
        let note: &NoteEventFrame = &notes[k];
        assert(note_views(notes@)[k as int] == note@);
        let bin: i128 = midi_pitch_to_contour_bin(note.pitch_midi);
        if note.duration_frames > rows || note.start_frame > rows - note.duration_frames {
            assert(!bendable(note_views(notes@)[k as int], rows as int, cols as int, tol));
            return Err(PipelineError::Shape);
        }
        // A window that begins behind the last column is empty.
        if bin >= cols as i128 + n_bins_tolerance as i128 || cols == 0 {
            assert(!bendable(note_views(notes@)[k as int], rows as int, cols as int, tol));
            return Err(PipelineError::Shape);
        }
        let center: u128 = if bin < 0 {
            0
        } else {
            bin as u128
        };
        assert(center == center_bin(note@.pitch_midi));
        let low: usize = if center < n_bins_tolerance as u128 {
            0
        } else {
            (center - n_bins_tolerance as u128) as usize
        };
        let high: usize = if center + n_bins_tolerance as u128 + 1 > cols as u128 {
            cols
        } else {
            (center + n_bins_tolerance as u128 + 1) as usize
        };
        let mut bends: Vec<i64> = Vec::new();
        let mut t: usize = 0;
        while t < note.duration_frames
            invariant
                t <= note.duration_frames,
                note.start_frame + note.duration_frames <= rows,
                g == grid(contours@),
                rectangular(g),
                rows == g.len(),
                cols == width(g),
                weights@.len() == 2 * n_bins_tolerance + 1,
                center <= 2 * usize::MAX,
                low == window_low(center as int, n_bins_tolerance as int),
                high == window_high(center as int, n_bins_tolerance as int, cols as int),
                low < high,
                bends@.len() == t,
                forall|q: int|
                    0 <= q < t ==> is_bend(
                        g[note.start_frame + q],
                        weights@,
                        center as int,
                        n_bins_tolerance as int,
                        (#[trigger] bends@[q]) as int,
                    ),
            decreases note.duration_frames - t,
        {
            let row: &Vec<u32> = &contours[note.start_frame + t];
            assert(g[note.start_frame + t] == row@);
            assert(g[note.start_frame + t].len() == cols);
            let bend: i64 = best_bend(row, weights, center, n_bins_tolerance, low, high);
            bends.push(bend);
            t += 1;
        }
        let with: NoteEventFrame = NoteEventFrame {
            start_frame: note.start_frame,
            duration_frames: note.duration_frames,
            pitch_midi: note.pitch_midi,
            amplitude: note.amplitude,
            pitch_bends: Some(bends),
        };
        assert(with_bends(note@, with@, g, tol, weights@));
        bent.push(with);
        k += 1;
    }
    assert forall|q: int| 0 <= q < notes@.len() implies bendable(
        #[trigger] note_views(notes@)[q],
        g.len() as int,
        width(g) as int,
        tol,
    ) by {}
    Ok(bent)
}

} // verus!
