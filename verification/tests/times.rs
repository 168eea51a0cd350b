use audio_to_midi::note_event_frames::NoteEventFrame;
use audio_to_midi::note_event_times::note_frames_to_time;

fn note(start_frame: usize, duration_frames: usize) -> NoteEventFrame {
    NoteEventFrame { start_frame, duration_frames, pitch_midi: 60, amplitude: 500_000, pitch_bends: Some(vec![1, -1]) }
}

#[test]
fn notes_inside_a_window_last_whole_hops() {
    let times = note_frames_to_time(&vec![note(10, 10)]);
    assert_eq!(times.len(), 1);
    assert_eq!(times[0].start_time, 512_000);
    assert_eq!(times[0].duration, 512_000);
    assert_eq!(times[0].pitch_midi, 60);
    assert_eq!(times[0].amplitude, 500_000);
    assert_eq!(times[0].pitch_bends, Some(vec![1, -1]));
}

#[test]
fn notes_across_a_window_boundary_are_shorter() {
    // The note ends in the second window, whose times are pulled back.
    let times = note_frames_to_time(&vec![note(170, 4)]);
    assert_eq!(times[0].start_time, 170 * 51_200);
    assert_eq!(times[0].duration, 4 * 51_200 - 7_938);
}

#[test]
fn notes_keep_their_order() {
    let times = note_frames_to_time(&vec![note(300, 1), note(0, 2), note(172, 0)]);
    assert_eq!(times.len(), 3);
    assert_eq!(times[0].start_time, 300 * 51_200 - 7_938);
    assert_eq!(times[1].start_time, 0);
    assert_eq!(times[1].duration, 102_400);
    assert_eq!(times[2].start_time, 172 * 51_200 - 7_938);
    assert_eq!(times[2].duration, 0);
}

#[test]
fn the_largest_frames_have_a_time() {
    let times = note_frames_to_time(&vec![note(usize::MAX, usize::MAX)]);
    assert!(times[0].start_time > 0);
    assert!(times[0].duration > 0);
}
