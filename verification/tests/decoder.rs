use audio_to_midi::constants::MIDI_OFFSET;
use audio_to_midi::error::PipelineError;
use audio_to_midi::note_event_frames::{output_to_notes_poly, NoteEventFrame};

fn silence(rows: usize, cols: usize) -> Vec<Vec<u32>> {
    vec![vec![0; cols]; rows]
}

/// A matrix in which column `col` sounds in the rows from `first` to `last`.
fn sounding(rows: usize, cols: usize, col: usize, first: usize, last: usize, value: u32) -> Vec<Vec<u32>> {
    let mut m = silence(rows, cols);
    for row in m.iter_mut().take(last + 1).skip(first) {
        row[col] = value;
    }
    m
}

fn fields(note: &NoteEventFrame) -> (usize, usize, usize, u32, bool) {
    (note.start_frame, note.duration_frames, note.pitch_midi, note.amplitude, note.pitch_bends.is_none())
}

#[test]
fn single_onset_peak_gives_one_note() {
    let frames = sounding(30, 88, 40, 10, 20, 800_000);
    let mut onsets = silence(30, 88);
    onsets[10][40] = 900_000;
    let notes = output_to_notes_poly(frames, onsets, 500_000, Some(300_000), 5, false, None, None, true, 11).unwrap();
    assert_eq!(notes.len(), 1);
    assert_eq!(fields(&notes[0]), (10, 10, 40 + MIDI_OFFSET, 800_000, true));
}

#[test]
fn single_onset_peak_gives_one_note_with_inferred_onsets() {
    let frames = sounding(30, 88, 40, 10, 20, 800_000);
    let mut onsets = silence(30, 88);
    onsets[10][40] = 900_000;
    let notes = output_to_notes_poly(frames, onsets, 500_000, Some(300_000), 5, true, None, None, true, 11).unwrap();
    assert_eq!(notes.len(), 1);
    assert_eq!(fields(&notes[0]), (10, 10, 61, 800_000, true));
}

#[test]
fn decoding_twice_gives_the_same_notes() {
    let frames = sounding(30, 88, 40, 10, 20, 800_000);
    let mut onsets = silence(30, 88);
    onsets[10][40] = 900_000;
    let first =
        output_to_notes_poly(frames.clone(), onsets.clone(), 500_000, Some(300_000), 5, true, None, None, true, 11)
            .unwrap();
    let second = output_to_notes_poly(frames, onsets, 500_000, Some(300_000), 5, true, None, None, true, 11).unwrap();
    assert_eq!(first.len(), second.len());
    for (a, b) in first.iter().zip(second.iter()) {
        assert_eq!(fields(a), fields(b));
    }
}

#[test]
fn a_note_must_last_more_than_the_minimum() {
    let frames = sounding(30, 88, 40, 10, 20, 800_000);
    let mut onsets = silence(30, 88);
    onsets[10][40] = 900_000;
    let kept =
        output_to_notes_poly(frames.clone(), onsets.clone(), 500_000, Some(300_000), 9, false, None, None, false, 11)
            .unwrap();
    assert_eq!(kept.len(), 1);
    assert!(kept[0].duration_frames > 9);
    let dropped = output_to_notes_poly(frames, onsets, 500_000, Some(300_000), 10, false, None, None, false, 11).unwrap();
    assert!(dropped.is_empty());
}

#[test]
fn an_onset_must_exceed_the_onset_threshold() {
    let frames = sounding(30, 88, 40, 10, 20, 800_000);
    let mut onsets = silence(30, 88);
    onsets[10][40] = 500_000;
    let notes = output_to_notes_poly(frames, onsets, 500_000, Some(300_000), 5, false, None, None, false, 11).unwrap();
    assert!(notes.is_empty());
}

#[test]
fn the_frequency_gate_keeps_notes_inside() {
    let frames = sounding(30, 88, 40, 10, 20, 800_000);
    let mut onsets = silence(30, 88);
    onsets[10][40] = 900_000;
    let decode = |max_freq: Option<u32>, min_freq: Option<u32>| {
        output_to_notes_poly(frames.clone(), onsets.clone(), 500_000, Some(300_000), 5, true, max_freq, min_freq, true, 11)
            .unwrap()
    };
    // Column 40 holds pitch 61, which sounds at 277.1826 Hz.
    let inside = decode(Some(277_183), Some(277_182));
    assert_eq!(inside.len(), 1);
    assert_eq!(inside[0].pitch_midi, 61);
    // An upper bound below the pitch silences it.
    assert!(decode(Some(277_182), None).is_empty());
    // A lower bound above the pitch silences it, however close it lies.
    assert!(decode(None, Some(277_183)).is_empty());
    assert!(decode(None, Some(280_000)).is_empty());
    // Bounds far from the pitch leave it alone.
    assert_eq!(decode(Some(4_000_000), Some(30_000)).len(), 1);
}

#[test]
fn a_lower_bound_between_two_pitches_silences_the_lower() {
    // Forty rows; column 40 sounds in the rows 10 to 20.
    let frames = sounding(40, 88, 40, 10, 20, 1_000_000);
    let mut onsets = silence(40, 88);
    onsets[10][40] = 1_000_000;
    let notes =
        output_to_notes_poly(frames, onsets, 500_000, Some(300_000), 5, false, None, Some(280_000), false, 3).unwrap();
    assert!(notes.is_empty());
}

#[test]
fn a_note_lasts_from_its_start_to_its_last_sounding_row() {
    let frames = sounding(40, 88, 40, 10, 20, 1_000_000);
    let mut onsets = silence(40, 88);
    onsets[10][40] = 1_000_000;
    let notes = output_to_notes_poly(frames, onsets, 500_000, Some(300_000), 5, false, None, None, false, 3).unwrap();
    assert_eq!(notes.len(), 1);
    assert_eq!(fields(&notes[0]), (10, 10, 61, 1_000_000, true));
}

#[test]
fn both_passes_end_a_note_at_the_same_row() {
    // The same energy, once found from its onset and once without one.
    let frames = sounding(40, 4, 1, 10, 20, 700_000);
    let mut onsets = silence(40, 4);
    onsets[10][1] = 900_000;
    let first =
        output_to_notes_poly(frames.clone(), onsets, 500_000, Some(300_000), 5, false, None, None, false, 3).unwrap();
    let second =
        output_to_notes_poly(frames, silence(40, 4), 500_000, Some(300_000), 5, false, None, None, true, 3).unwrap();
    assert_eq!(fields(&first[0]), (10, 10, 22, 700_000, true));
    assert_eq!(fields(&second[0]), (10, 10, 22, 700_000, true));
}

#[test]
fn later_candidates_are_handled_first() {
    // Two onsets on one pitch track, five rows apart; the track sounds in the
    // rows 3 to 15. The later one is taken first and claims the rows from 8
    // on; the earlier one then stops before them.
    let frames = sounding(24, 4, 1, 3, 15, 600_000);
    let mut onsets = silence(24, 4);
    onsets[3][1] = 900_000;
    onsets[8][1] = 900_000;
    let notes = output_to_notes_poly(frames, onsets, 500_000, Some(300_000), 2, false, None, None, false, 2).unwrap();
    assert_eq!(notes.len(), 2);
    assert_eq!(fields(&notes[0]), (8, 7, 22, 600_000, true));
    assert_eq!(fields(&notes[1]), (3, 4, 22, 600_000, true));
}

#[test]
fn short_silences_do_not_end_a_note() {
    // The rows 5 to 8 and 10 to 13 sound, row 9 is silent.
    let mut frames = sounding(24, 3, 1, 5, 13, 600_000);
    frames[9][1] = 0;
    let mut onsets = silence(24, 3);
    onsets[5][1] = 900_000;
    // With a tolerance of two silent frames the note runs to row 13.
    let bridged =
        output_to_notes_poly(frames.clone(), onsets.clone(), 500_000, Some(300_000), 2, false, None, None, false, 2)
            .unwrap();
    assert_eq!(bridged.len(), 1);
    // Mean of seven frames of 600000 and one of 0.
    assert_eq!(fields(&bridged[0]), (5, 8, 22, 525_000, true));
    // With a tolerance of one it ends before the first silent frame.
    let cut = output_to_notes_poly(frames, onsets, 500_000, Some(300_000), 2, false, None, None, false, 1).unwrap();
    assert_eq!(cut.len(), 1);
    assert_eq!(fields(&cut[0]), (5, 3, 22, 600_000, true));
}

#[test]
fn a_candidate_in_the_last_row_is_skipped() {
    let frames = sounding(6, 3, 1, 0, 5, 600_000);
    let mut onsets = silence(6, 3);
    onsets[5][1] = 900_000;
    let notes = output_to_notes_poly(frames, onsets, 500_000, Some(300_000), 0, false, None, None, false, 2).unwrap();
    assert!(notes.is_empty());
}

#[test]
fn melodia_trick_finds_a_note_without_onset() {
    // Column 2 sounds in the rows 5 to 12, strongest in row 8.
    let mut frames = sounding(20, 4, 2, 5, 12, 700_000);
    frames[8][2] = 900_000;
    let onsets = silence(20, 4);
    let notes = output_to_notes_poly(frames.clone(), onsets.clone(), 500_000, Some(300_000), 3, false, None, None, true, 2)
        .unwrap();
    assert_eq!(notes.len(), 1);
    // The note runs from row 5 up to row 12; its mean is (6 * 700000 + 900000) / 7.
    assert_eq!(fields(&notes[0]), (5, 7, 23, 728_571, true));
    let without =
        output_to_notes_poly(frames, onsets, 500_000, Some(300_000), 3, false, None, None, false, 2).unwrap();
    assert!(without.is_empty());
}

#[test]
fn melodia_trick_drops_short_notes_and_ends() {
    let mut frames = silence(10, 3);
    frames[4][1] = 900_000;
    frames[7][2] = 800_000;
    let notes =
        output_to_notes_poly(frames, silence(10, 3), 500_000, Some(300_000), 3, false, None, None, true, 2).unwrap();
    assert!(notes.is_empty());
}

#[test]
fn melodia_trick_with_threshold_zero_ends() {
    let frames = sounding(12, 3, 1, 2, 8, 5);
    let notes = output_to_notes_poly(frames, silence(12, 3), 500_000, Some(0), 1, false, None, None, true, 3).unwrap();
    for note in notes.iter() {
        assert!(note.duration_frames > 1);
    }
}

#[test]
fn the_frame_threshold_defaults_to_mean_plus_deviation() {
    // Eleven cells of 600000 among 120: the mean is 55000 and the deviation
    // below 200000, so the threshold lies far below the sounding cells.
    let frames = sounding(30, 4, 1, 10, 20, 600_000);
    let mut onsets = silence(30, 4);
    onsets[10][1] = 900_000;
    let notes = output_to_notes_poly(frames, onsets, 500_000, None, 5, false, None, None, false, 11).unwrap();
    assert_eq!(notes.len(), 1);
    assert_eq!(fields(&notes[0]), (10, 10, 22, 600_000, true));
}

#[test]
fn the_default_threshold_needs_two_cells() {
    let result = output_to_notes_poly(vec![vec![7]], vec![vec![7]], 500_000, None, 5, false, None, None, false, 11);
    assert_eq!(result.err(), Some(PipelineError::ArithmeticDegeneracy));
    let empty = output_to_notes_poly(vec![], vec![], 500_000, None, 5, false, None, None, false, 11);
    assert_eq!(empty.err(), Some(PipelineError::ArithmeticDegeneracy));
}

#[test]
fn frames_that_never_rise_infer_no_onset() {
    let constant = vec![vec![700_000, 700_000]; 12];
    let notes =
        output_to_notes_poly(constant.clone(), silence(12, 2), 500_000, Some(300_000), 5, true, None, None, false, 11)
            .unwrap();
    assert!(notes.is_empty());
    // The onsets that are there still start their notes.
    let mut onsets = silence(12, 2);
    onsets[2][1] = 900_000;
    let notes = output_to_notes_poly(constant, onsets, 500_000, Some(300_000), 5, true, None, None, false, 11).unwrap();
    assert_eq!(notes.len(), 1);
    assert_eq!(fields(&notes[0]), (2, 8, 22, 700_000, true));
    let silent = output_to_notes_poly(silence(12, 2), silence(12, 2), 500_000, Some(300_000), 5, true, None, None, true, 11)
        .unwrap();
    assert!(silent.is_empty());
}

#[test]
fn matrices_must_be_rectangles_of_one_shape() {
    let ragged = vec![vec![0, 0], vec![0]];
    let result = output_to_notes_poly(ragged, silence(2, 2), 500_000, Some(300_000), 5, false, None, None, false, 11);
    assert_eq!(result.err(), Some(PipelineError::Shape));
    let result =
        output_to_notes_poly(silence(3, 2), silence(2, 2), 500_000, Some(300_000), 5, false, None, None, false, 11);
    assert_eq!(result.err(), Some(PipelineError::Shape));
    let result =
        output_to_notes_poly(silence(2, 3), silence(2, 2), 500_000, Some(300_000), 5, false, None, None, false, 11);
    assert_eq!(result.err(), Some(PipelineError::Shape));
}

#[test]
fn empty_matrices_hold_no_notes() {
    let notes = output_to_notes_poly(vec![], vec![], 500_000, Some(300_000), 5, false, None, None, true, 11).unwrap();
    assert!(notes.is_empty());
}

#[test]
fn consumed_energy_is_not_found_again() {
    // Columns 1 and 2 sound together; the onset is in column 1. The note in
    // column 1 removes the energy of both, so nothing is left for the
    // second pass.
    let mut frames = sounding(20, 4, 1, 4, 11, 700_000);
    for row in frames.iter_mut().take(12).skip(4) {
        row[2] = 650_000;
    }
    let mut onsets = silence(20, 4);
    onsets[4][1] = 900_000;
    let notes = output_to_notes_poly(frames, onsets, 500_000, Some(300_000), 3, false, None, None, true, 2).unwrap();
    assert_eq!(notes.len(), 1);
    assert_eq!(fields(&notes[0]), (4, 7, 22, 700_000, true));
}
