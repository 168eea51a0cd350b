use audio_to_midi::error::PipelineError;
use audio_to_midi::helpers::{constrain_frequency, get_inferred_onsets, midi_pitch_to_contour_bin};

#[test]
fn constrain_frequency_without_bounds_changes_nothing() {
    let mut onsets = vec![vec![1, 2, 3], vec![4, 5, 6]];
    let mut frames = vec![vec![7, 8, 9], vec![1, 1, 1]];
    constrain_frequency(&mut onsets, &mut frames, None, None);
    assert_eq!(onsets, vec![vec![1, 2, 3], vec![4, 5, 6]]);
    assert_eq!(frames, vec![vec![7, 8, 9], vec![1, 1, 1]]);
}

#[test]
fn constrain_frequency_silences_above_the_upper_bound() {
    let mut onsets = vec![vec![1, 2, 3, 4], vec![5, 6, 7, 8]];
    let mut frames = vec![vec![9, 9, 9, 9], vec![9, 9, 9, 9]];
    // Pitch 23, in column 2, sounds at 30.8677 Hz.
    constrain_frequency(&mut onsets, &mut frames, Some(30_868), None);
    assert_eq!(onsets, vec![vec![1, 2, 3, 0], vec![5, 6, 7, 0]]);
    assert_eq!(frames, vec![vec![9, 9, 9, 0], vec![9, 9, 9, 0]]);
    constrain_frequency(&mut onsets, &mut frames, Some(30_867), None);
    assert_eq!(onsets, vec![vec![1, 2, 0, 0], vec![5, 6, 0, 0]]);
}

#[test]
fn constrain_frequency_silences_below_the_lower_bound() {
    let mut onsets = vec![vec![1, 2, 3, 4], vec![5, 6, 7, 8]];
    let mut frames = vec![vec![9, 9, 9, 9], vec![9, 9, 9, 9]];
    // Pitch 22, in column 1, sounds at 29.1352 Hz.
    constrain_frequency(&mut onsets, &mut frames, None, Some(29_135));
    assert_eq!(onsets, vec![vec![0, 2, 3, 4], vec![0, 6, 7, 8]]);
    assert_eq!(frames, vec![vec![0, 9, 9, 9], vec![0, 9, 9, 9]]);
    constrain_frequency(&mut onsets, &mut frames, None, Some(29_136));
    assert_eq!(onsets, vec![vec![0, 0, 3, 4], vec![0, 0, 7, 8]]);
}

#[test]
fn constrain_frequency_with_both_bounds() {
    let mut onsets = vec![vec![1, 2, 3, 4, 5]];
    let mut frames = vec![vec![6, 7, 8, 9, 10]];
    // The columns 2 and 3 hold the pitches 23 and 24, at 30.8677 Hz and 32.7032 Hz.
    constrain_frequency(&mut onsets, &mut frames, Some(33_000), Some(30_000));
    assert_eq!(onsets, vec![vec![0, 0, 3, 4, 0]]);
    assert_eq!(frames, vec![vec![0, 0, 8, 9, 0]]);
}

#[test]
fn constrain_frequency_keeps_a_pitch_that_lies_on_a_bound() {
    // Column 48 holds pitch 69, at 440 Hz exactly.
    let mut onsets = vec![vec![1; 88]];
    let mut frames = vec![vec![1; 88]];
    constrain_frequency(&mut onsets, &mut frames, Some(440_000), Some(440_000));
    let mut expected = vec![0; 88];
    expected[48] = 1;
    assert_eq!(onsets, vec![expected.clone()]);
    assert_eq!(frames, vec![expected]);
}

#[test]
fn constrain_frequency_silences_every_pitch_below_the_lower_bound() {
    // 450 Hz lies between the pitches 69 and 70.
    let mut onsets = vec![vec![1; 88]];
    let mut frames = vec![vec![1; 88]];
    constrain_frequency(&mut onsets, &mut frames, None, Some(450_000));
    for col in 0..88 {
        let kept = if col <= 48 { 0 } else { 1 };
        assert_eq!(onsets[0][col], kept);
        assert_eq!(frames[0][col], kept);
    }
}

#[test]
fn constrain_frequency_with_bounds_beyond_the_matrix() {
    let mut onsets = vec![vec![1, 2, 3]];
    let mut frames = vec![vec![4, 5, 6]];
    constrain_frequency(&mut onsets, &mut frames, Some(20_000_000), None);
    assert_eq!(onsets, vec![vec![1, 2, 3]]);
    constrain_frequency(&mut onsets, &mut frames, None, Some(10_000));
    assert_eq!(onsets, vec![vec![1, 2, 3]]);
    constrain_frequency(&mut onsets, &mut frames, Some(u32::MAX), Some(0));
    assert_eq!(onsets, vec![vec![1, 2, 3]]);
    constrain_frequency(&mut onsets, &mut frames, None, Some(20_000_000));
    assert_eq!(onsets, vec![vec![0, 0, 0]]);
    assert_eq!(frames, vec![vec![0, 0, 0]]);
}

#[test]
fn constrain_frequency_silences_everything_below_the_lowest_pitch() {
    let mut onsets = vec![vec![1, 2, 3]];
    let mut frames = vec![vec![4, 5, 6]];
    constrain_frequency(&mut onsets, &mut frames, Some(20_000), None);
    assert_eq!(onsets, vec![vec![0, 0, 0]]);
    assert_eq!(frames, vec![vec![0, 0, 0]]);
}

#[test]
fn inferred_onsets_follow_a_rise_of_the_frames() {
    // Column 0 rises from 0 to 8 at row 2; column 1 stays flat.
    let frames = vec![vec![0, 5], vec![0, 5], vec![8, 5], vec![8, 5], vec![2, 5]];
    let onsets = vec![vec![0, 0], vec![0, 4], vec![0, 0], vec![0, 0], vec![0, 0]];
    // The least rise over one and two rows is 8 at (2, 0) and 0 elsewhere;
    // scaled by 4 / 8 it is 4 there.
    assert_eq!(
        get_inferred_onsets(&onsets, &frames, 2),
        Ok(vec![vec![0, 0], vec![0, 4], vec![4, 0], vec![0, 0], vec![0, 0]])
    );
}

#[test]
fn inferred_onsets_take_the_least_rise() {
    // Row 3 rises by 6 over one row but only by 2 over two rows.
    let frames = vec![vec![0], vec![4], vec![0], vec![6], vec![6]];
    let onsets = vec![vec![0], vec![0], vec![0], vec![0], vec![10]];
    // Rises from row 2 on: min(0, 0), min(6, 2), min(0, 6). Scaled by 10 / 2.
    assert_eq!(get_inferred_onsets(&onsets, &frames, 2), Ok(vec![vec![0], vec![0], vec![0], vec![10], vec![10]]));
}

#[test]
fn inferred_onsets_keep_the_stronger_of_onset_and_rise() {
    let frames = vec![vec![0], vec![0], vec![4], vec![10]];
    let onsets = vec![vec![0], vec![0], vec![9], vec![1]];
    // Rises: 4 at row 2, 6 at row 3; scaled by 9 / 6 and rounded down: 6 and 9.
    assert_eq!(get_inferred_onsets(&onsets, &frames, 2), Ok(vec![vec![0], vec![0], vec![9], vec![9]]));
}

#[test]
fn inferred_onsets_over_one_row() {
    let frames = vec![vec![1], vec![3], vec![3], vec![9]];
    let onsets = vec![vec![0], vec![0], vec![0], vec![12]];
    // Rises over one row from row 1 on: 2, 0, 6; scaled by 12 / 6.
    assert_eq!(get_inferred_onsets(&onsets, &frames, 1), Ok(vec![vec![0], vec![4], vec![0], vec![12]]));
}

#[test]
fn frames_that_never_rise_leave_the_onsets_as_they_are() {
    let frames = vec![vec![5, 5], vec![5, 5], vec![5, 5], vec![4, 1]];
    let onsets = vec![vec![1, 1], vec![1, 1], vec![1, 1], vec![1, 1]];
    assert_eq!(get_inferred_onsets(&onsets, &frames, 2), Ok(onsets.clone()));
    let constant = vec![vec![700_000], vec![700_000], vec![700_000], vec![700_000]];
    let onsets = vec![vec![100_000], vec![200_000], vec![300_000], vec![400_000]];
    assert_eq!(get_inferred_onsets(&onsets, &constant, 2), Ok(onsets.clone()));
    let silent = vec![vec![0], vec![0], vec![0], vec![0]];
    assert_eq!(get_inferred_onsets(&onsets, &silent, 2), Ok(onsets));
}

#[test]
fn inferred_onsets_are_not_below_the_onsets_and_reach_no_higher() {
    let frames = vec![vec![0, 3], vec![2, 3], vec![9, 0], vec![9, 8], vec![1, 8], vec![7, 9]];
    let onsets = vec![vec![4, 0], vec![0, 0], vec![1, 2], vec![0, 6], vec![0, 0], vec![3, 0]];
    let inferred = get_inferred_onsets(&onsets, &frames, 2).unwrap();
    assert_eq!(inferred.len(), onsets.len());
    for (row, given) in inferred.iter().zip(onsets.iter()) {
        assert_eq!(row.len(), given.len());
        for (cell, onset) in row.iter().zip(given.iter()) {
            assert!(cell >= onset);
            assert!(*cell <= 6);
        }
    }
    assert_eq!(inferred[0], onsets[0]);
    assert_eq!(inferred[1], onsets[1]);
}

#[test]
fn inferred_onsets_need_a_difference() {
    let frames = vec![vec![0], vec![4]];
    let onsets = vec![vec![0], vec![0]];
    assert_eq!(get_inferred_onsets(&onsets, &frames, 0), Err(PipelineError::Config));
}

#[test]
fn inferred_onsets_need_matrices_of_one_shape() {
    let frames = vec![vec![0, 1], vec![4, 1]];
    assert_eq!(get_inferred_onsets(&vec![vec![0, 1]], &frames, 2), Err(PipelineError::Shape));
    assert_eq!(get_inferred_onsets(&vec![vec![0], vec![1]], &frames, 2), Err(PipelineError::Shape));
    assert_eq!(get_inferred_onsets(&vec![vec![0, 1], vec![1]], &frames, 2), Err(PipelineError::Shape));
    let ragged = vec![vec![0, 1], vec![4]];
    assert_eq!(get_inferred_onsets(&vec![vec![0, 1], vec![0, 1]], &ragged, 2), Err(PipelineError::Shape));
}

#[test]
fn contour_bins_are_three_per_semitone() {
    assert_eq!(midi_pitch_to_contour_bin(21), 0);
    assert_eq!(midi_pitch_to_contour_bin(22), 3);
    assert_eq!(midi_pitch_to_contour_bin(69), 144);
    assert_eq!(midi_pitch_to_contour_bin(108), 261);
}

#[test]
fn contour_bins_below_the_lowest_pitch_are_negative() {
    assert_eq!(midi_pitch_to_contour_bin(20), -3);
    assert_eq!(midi_pitch_to_contour_bin(0), -63);
}
