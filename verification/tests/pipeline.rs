use audio_to_midi::midi::{generate_midi_file_data, generate_ordered_midi_events, DeltaEvent, MidiEventKind};
use audio_to_midi::note_event_frames::output_to_notes_poly;
use audio_to_midi::note_event_times::note_frames_to_time;
use audio_to_midi::pitch_bends::add_pitch_bends_to_note_events;
use audio_to_midi::stitch::unwrap_output;

/// Two windows of 19 frames each, with an overlap of 8 frames: a tone in
/// column `col` sounds in the frames that become the rows 10 to 20.
fn model_output(cols: usize, col: usize, value: u32) -> Vec<Vec<Vec<u32>>> {
    let mut windows = vec![vec![vec![0; cols]; 19]; 2];
    // Row 10 is frame 14 of the first window; row 11 is frame 4 of the second.
    windows[0][14][col] = value;
    for frame in 4..14 {
        windows[1][frame][col] = value;
    }
    windows
}

#[test]
fn from_model_output_to_midi_file() {
    // Each window keeps 19 - 8 = 11 of its frames.
    let frames = unwrap_output(&model_output(88, 40, 800_000), 1_000_000, 8).unwrap();
    assert_eq!(frames.len(), 22);
    let mut onset_windows = vec![vec![vec![0; 88]; 19]; 2];
    onset_windows[0][14][40] = 900_000;
    let onsets = unwrap_output(&onset_windows, 1_000_000, 8).unwrap();
    let mut contour_windows = vec![vec![vec![0; 264]; 19]; 2];
    contour_windows[0][14][121] = 700_000;
    for frame in 4..8 {
        contour_windows[1][frame][121] = 700_000;
    }
    for frame in 8..13 {
        contour_windows[1][frame][119] = 700_000;
    }
    let contours = unwrap_output(&contour_windows, 1_000_000, 8).unwrap();

    let notes = output_to_notes_poly(frames, onsets, 500_000, Some(300_000), 5, true, None, None, true, 11).unwrap();
    assert_eq!(notes.len(), 1);
    assert_eq!((notes[0].start_frame, notes[0].duration_frames, notes[0].pitch_midi), (10, 10, 61));
    assert_eq!(notes[0].amplitude, 800_000);

    let bent = add_pitch_bends_to_note_events(&contours, &notes, 2, &vec![1, 2, 3, 2, 1]).unwrap();
    assert_eq!(bent[0].pitch_bends, Some(vec![1, 1, 1, 1, 1, -1, -1, -1, -1, -1]));

    let times = note_frames_to_time(&bent);
    assert_eq!((times[0].start_time, times[0].duration), (512_000, 512_000));

    let events = generate_ordered_midi_events(note_frames_to_time(&bent), 57_600).unwrap();
    let up = MidiEventKind::PitchBend { bend: 0x2001 };
    let down = MidiEventKind::PitchBend { bend: 0x1FFF };
    assert_eq!(
        events,
        vec![
            DeltaEvent { delta: 111, kind: MidiEventKind::NoteOn { key: 61, vel: 102 } },
            DeltaEvent { delta: 1, kind: up },
            DeltaEvent { delta: 10, kind: up },
            DeltaEvent { delta: 11, kind: up },
            DeltaEvent { delta: 11, kind: up },
            DeltaEvent { delta: 12, kind: up },
            DeltaEvent { delta: 11, kind: down },
            DeltaEvent { delta: 11, kind: down },
            DeltaEvent { delta: 11, kind: down },
            DeltaEvent { delta: 11, kind: down },
            DeltaEvent { delta: 11, kind: down },
            DeltaEvent { delta: 11, kind: MidiEventKind::NoteOff { key: 61, vel: 102 } },
        ]
    );

    let bytes = generate_midi_file_data(&times, 120).unwrap();
    let smf = midly::Smf::parse(&bytes).unwrap();
    assert_eq!(smf.tracks.len(), 1);
    assert_eq!(smf.tracks[0].len(), 13);
    let ticks: u32 = smf.tracks[0].iter().map(|e| e.delta.as_int()).sum();
    assert_eq!(ticks, 222);
}

#[test]
fn decoded_notes_fit_the_midi_fields() {
    // Every column of an 88-column matrix sounds: all pitches from 21 to 108.
    let mut frames = vec![vec![0; 88]; 12];
    let mut onsets = vec![vec![0; 88]; 12];
    for col in 0..88 {
        for row in frames.iter_mut().take(10).skip(2) {
            row[col] = 1_000_000;
        }
        onsets[2][col] = 1_000_000;
    }
    let notes = output_to_notes_poly(frames, onsets, 500_000, Some(300_000), 3, false, None, None, false, 2).unwrap();
    assert!(!notes.is_empty());
    let times = note_frames_to_time(&notes);
    for note in times.iter() {
        assert!(note.pitch_midi >= 21 && note.pitch_midi <= 108);
        assert!(note.amplitude <= 1_000_000);
    }
    assert!(generate_midi_file_data(&times, 120).is_ok());
}
