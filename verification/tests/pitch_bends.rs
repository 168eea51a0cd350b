use audio_to_midi::error::PipelineError;
use audio_to_midi::note_event_frames::NoteEventFrame;
use audio_to_midi::pitch_bends::add_pitch_bends_to_note_events;

fn note(start_frame: usize, duration_frames: usize, pitch_midi: usize) -> NoteEventFrame {
    NoteEventFrame { start_frame, duration_frames, pitch_midi, amplitude: 700_000, pitch_bends: None }
}

fn contours(rows: usize, cols: usize) -> Vec<Vec<u32>> {
    vec![vec![0; cols]; rows]
}

#[test]
fn bends_follow_the_strongest_weighted_bin() {
    // Pitch 61 has bin 120.
    let mut c = contours(4, 264);
    // Row 0: the centre wins by its weight, 5 * 3 against 7 * 2.
    c[0][120] = 5;
    c[0][121] = 7;
    // Row 1: two bins above, 30 * 1 against 5 * 3.
    c[1][120] = 5;
    c[1][122] = 30;
    // Row 2: one bin below.
    c[2][119] = 9;
    // Row 3: nothing sounds; the first bin of the window is taken.
    let bent = add_pitch_bends_to_note_events(&c, &vec![note(0, 4, 61)], 2, &vec![1, 2, 3, 2, 1]).unwrap();
    assert_eq!(bent.len(), 1);
    assert_eq!(bent[0].pitch_bends, Some(vec![0, 2, -1, -2]));
    assert_eq!(bent[0].start_frame, 0);
    assert_eq!(bent[0].duration_frames, 4);
    assert_eq!(bent[0].pitch_midi, 61);
    assert_eq!(bent[0].amplitude, 700_000);
}

#[test]
fn bends_take_the_first_of_equal_bins() {
    let mut c = contours(1, 264);
    c[0][119] = 6;
    c[0][121] = 6;
    let bent = add_pitch_bends_to_note_events(&c, &vec![note(0, 1, 61)], 2, &vec![1, 2, 3, 2, 1]).unwrap();
    assert_eq!(bent[0].pitch_bends, Some(vec![-1]));
}

#[test]
fn bends_ignore_bins_outside_the_window() {
    let mut c = contours(1, 264);
    c[0][117] = 1_000;
    c[0][123] = 1_000;
    c[0][121] = 1;
    let bent = add_pitch_bends_to_note_events(&c, &vec![note(0, 1, 61)], 2, &vec![1, 2, 3, 2, 1]).unwrap();
    assert_eq!(bent[0].pitch_bends, Some(vec![1]));
}

#[test]
fn bends_cover_the_frames_of_the_note_only() {
    let mut c = contours(6, 264);
    c[1][121] = 9;
    c[2][119] = 9;
    c[3][122] = 9;
    c[4][118] = 9;
    let bent = add_pitch_bends_to_note_events(&c, &vec![note(2, 2, 61)], 2, &vec![1, 2, 3, 2, 1]).unwrap();
    assert_eq!(bent[0].pitch_bends, Some(vec![-1, 2]));
}

#[test]
fn the_window_is_cut_at_the_lower_edge() {
    // Pitch 21 has bin 0: the window holds the bins 0, 1 and 2, and the
    // weight of bin 0 is the middle one.
    let mut c = contours(2, 264);
    c[0][0] = 4;
    c[0][1] = 5;
    c[1][2] = 1;
    let bent = add_pitch_bends_to_note_events(&c, &vec![note(0, 2, 21)], 2, &vec![100, 100, 3, 2, 1]).unwrap();
    assert_eq!(bent[0].pitch_bends, Some(vec![0, 2]));
}

#[test]
fn the_window_is_cut_at_the_upper_edge() {
    // Pitch 108 has bin 261: the window holds the bins 259 to 263.
    let mut c = contours(1, 264);
    c[0][263] = 50;
    c[0][260] = 20;
    let bent = add_pitch_bends_to_note_events(&c, &vec![note(0, 1, 108)], 4, &vec![1, 1, 1, 2, 3, 2, 1, 9, 9]).unwrap();
    assert_eq!(bent[0].pitch_bends, Some(vec![2]));
}

#[test]
fn a_pitch_below_the_lowest_is_bent_around_bin_zero() {
    let mut c = contours(1, 264);
    c[0][1] = 5;
    let bent = add_pitch_bends_to_note_events(&c, &vec![note(0, 1, 10)], 1, &vec![1, 1, 1]).unwrap();
    assert_eq!(bent[0].pitch_bends, Some(vec![1]));
}

#[test]
fn a_tolerance_of_zero_gives_no_bend() {
    let mut c = contours(2, 264);
    c[0][121] = 5;
    let bent = add_pitch_bends_to_note_events(&c, &vec![note(0, 2, 61)], 0, &vec![7]).unwrap();
    assert_eq!(bent[0].pitch_bends, Some(vec![0, 0]));
}

#[test]
fn every_note_gets_its_bends() {
    let mut c = contours(3, 264);
    c[0][121] = 5;
    c[2][144] = 5;
    c[2][143] = 5;
    let bent =
        add_pitch_bends_to_note_events(&c, &vec![note(0, 1, 61), note(2, 1, 69), note(1, 0, 30)], 1, &vec![1, 1, 1])
            .unwrap();
    assert_eq!(bent.len(), 3);
    assert_eq!(bent[0].pitch_bends, Some(vec![1]));
    assert_eq!(bent[1].pitch_bends, Some(vec![-1]));
    assert_eq!(bent[2].pitch_bends, Some(vec![]));
    assert_eq!(bent[1].pitch_midi, 69);
}

#[test]
fn the_weights_must_cover_the_window() {
    let c = contours(2, 264);
    let result = add_pitch_bends_to_note_events(&c, &vec![note(0, 1, 61)], 2, &vec![1, 2, 1]);
    assert_eq!(result.err(), Some(PipelineError::Shape));
    let result = add_pitch_bends_to_note_events(&c, &vec![], usize::MAX, &vec![1]);
    assert_eq!(result.err(), Some(PipelineError::Shape));
}

#[test]
fn the_note_must_lie_inside_the_contours() {
    let c = contours(4, 264);
    let result = add_pitch_bends_to_note_events(&c, &vec![note(2, 3, 61)], 1, &vec![1, 1, 1]);
    assert_eq!(result.err(), Some(PipelineError::Shape));
    let result = add_pitch_bends_to_note_events(&c, &vec![note(usize::MAX, 2, 61)], 1, &vec![1, 1, 1]);
    assert_eq!(result.err(), Some(PipelineError::Shape));
    assert!(add_pitch_bends_to_note_events(&c, &vec![note(2, 2, 61)], 1, &vec![1, 1, 1]).is_ok());
}

#[test]
fn the_pitch_must_reach_the_contours() {
    // Ten columns: with a tolerance of 1 the bins up to 10 still reach them.
    let c = contours(1, 10);
    assert!(add_pitch_bends_to_note_events(&c, &vec![note(0, 1, 24)], 1, &vec![1, 1, 1]).is_ok());
    let reaching = add_pitch_bends_to_note_events(&c, &vec![note(0, 1, 24)], 1, &vec![1, 1, 1]).unwrap();
    assert_eq!(reaching[0].pitch_bends, Some(vec![-1]));
    let result = add_pitch_bends_to_note_events(&c, &vec![note(0, 1, 25)], 1, &vec![1, 1, 1]);
    assert_eq!(result.err(), Some(PipelineError::Shape));
    let result = add_pitch_bends_to_note_events(&c, &vec![note(0, 1, usize::MAX)], 1, &vec![1, 1, 1]);
    assert_eq!(result.err(), Some(PipelineError::Shape));
}

#[test]
fn the_contours_must_be_a_rectangle() {
    let c = vec![vec![0; 264], vec![0; 263]];
    let result = add_pitch_bends_to_note_events(&c, &vec![], 1, &vec![1, 1, 1]);
    assert_eq!(result.err(), Some(PipelineError::Shape));
}
