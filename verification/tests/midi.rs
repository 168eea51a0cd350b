use audio_to_midi::constants::{TICKS_PER_BEAT, TIME_UNITS_PER_SECOND};
use audio_to_midi::error::PipelineError;
use audio_to_midi::midi::{
    finish_midi_file, generate_midi_file_data, generate_ordered_midi_events, DeltaEvent, MidiEventKind,
};
use audio_to_midi::note_event_times::NoteEventTime;

/// Ticks per minute at 120 beats per minute: 960 ticks per second.
const TPM_120: u64 = 57_600;

/// The time of tick 100 at 960 ticks per second.
const TICK_100: u128 = 459_375;

fn note(start_time: u128, duration: u128, pitch_midi: usize, amplitude: u32) -> NoteEventTime {
    NoteEventTime { start_time, duration, pitch_midi, amplitude, pitch_bends: None }
}

fn absolute_ticks(events: &[DeltaEvent]) -> Vec<u64> {
    let mut tick = 0;
    events
        .iter()
        .map(|e| {
            tick += e.delta as u64;
            tick
        })
        .collect()
}

#[test]
fn tick_rate_at_120_beats_per_minute() {
    assert_eq!(TICKS_PER_BEAT as u64 * 120, TPM_120);
    assert_eq!(TPM_120 / 60, 960);
}

#[test]
fn note_at_half_a_second_starts_at_tick_480() {
    let half = TIME_UNITS_PER_SECOND as u128 / 2;
    let events = generate_ordered_midi_events(vec![note(half, half, 60, 1_000_000)], TPM_120).unwrap();
    assert_eq!(
        events,
        vec![
            DeltaEvent { delta: 480, kind: MidiEventKind::NoteOn { key: 60, vel: 127 } },
            DeltaEvent { delta: 480, kind: MidiEventKind::NoteOff { key: 60, vel: 127 } },
        ]
    );
}

#[test]
fn release_comes_before_strike_on_the_same_tick() {
    // The second note is listed first, so after sorting its strike at tick
    // 100 stands before the release of the first.
    let ending = note(0, TICK_100, 60, 1_000_000);
    let starting = note(TICK_100, TICK_100, 60, 500_000);
    let events = generate_ordered_midi_events(vec![starting, ending], TPM_120).unwrap();
    assert_eq!(
        events,
        vec![
            DeltaEvent { delta: 0, kind: MidiEventKind::NoteOn { key: 60, vel: 127 } },
            DeltaEvent { delta: 100, kind: MidiEventKind::NoteOff { key: 60, vel: 127 } },
            DeltaEvent { delta: 0, kind: MidiEventKind::NoteOn { key: 60, vel: 64 } },
            DeltaEvent { delta: 100, kind: MidiEventKind::NoteOff { key: 60, vel: 64 } },
        ]
    );
}

#[test]
fn release_stays_before_strike_when_it_is_there_already() {
    let ending = note(0, TICK_100, 60, 1_000_000);
    let starting = note(TICK_100, TICK_100, 60, 500_000);
    let events = generate_ordered_midi_events(vec![ending, starting], TPM_120).unwrap();
    assert_eq!(
        events,
        vec![
            DeltaEvent { delta: 0, kind: MidiEventKind::NoteOn { key: 60, vel: 127 } },
            DeltaEvent { delta: 100, kind: MidiEventKind::NoteOff { key: 60, vel: 127 } },
            DeltaEvent { delta: 0, kind: MidiEventKind::NoteOn { key: 60, vel: 64 } },
            DeltaEvent { delta: 100, kind: MidiEventKind::NoteOff { key: 60, vel: 64 } },
        ]
    );
}

#[test]
fn only_neighbours_change_places() {
    // At tick 100 the strikes of keys 60 and 62 stand before the release of
    // key 60. The release changes places with the strike of key 62 only.
    let events = generate_ordered_midi_events(
        vec![
            note(TICK_100, TICK_100, 60, 1_000_000),
            note(TICK_100, TICK_100, 62, 1_000_000),
            note(0, TICK_100, 60, 1_000_000),
        ],
        TPM_120,
    )
    .unwrap();
    let kinds: Vec<MidiEventKind> = events.iter().map(|e| e.kind).collect();
    assert_eq!(
        kinds,
        vec![
            MidiEventKind::NoteOn { key: 60, vel: 127 },
            MidiEventKind::NoteOn { key: 60, vel: 127 },
            MidiEventKind::NoteOff { key: 60, vel: 127 },
            MidiEventKind::NoteOn { key: 62, vel: 127 },
            MidiEventKind::NoteOff { key: 60, vel: 127 },
            MidiEventKind::NoteOff { key: 62, vel: 127 },
        ]
    );
    assert_eq!(absolute_ticks(&events), vec![0, 100, 100, 100, 200, 200]);
}

#[test]
fn a_note_without_duration_is_released_first() {
    let events = generate_ordered_midi_events(vec![note(TICK_100, 0, 72, 1_000_000)], TPM_120).unwrap();
    assert_eq!(
        events,
        vec![
            DeltaEvent { delta: 100, kind: MidiEventKind::NoteOff { key: 72, vel: 127 } },
            DeltaEvent { delta: 0, kind: MidiEventKind::NoteOn { key: 72, vel: 127 } },
        ]
    );
}

#[test]
fn delta_times_add_up_to_the_sorted_ticks() {
    let events = generate_ordered_midi_events(
        vec![
            note(3 * TICK_100, 2 * TICK_100, 64, 300_000),
            note(0, 4 * TICK_100, 60, 1_000_000),
            note(TICK_100, TICK_100, 67, 700_000),
        ],
        TPM_120,
    )
    .unwrap();
    assert_eq!(absolute_ticks(&events), vec![0, 100, 200, 300, 400, 500]);
}

#[test]
fn events_of_one_tick_keep_the_order_of_their_notes() {
    let events = generate_ordered_midi_events(
        vec![note(0, TICK_100, 60, 1_000_000), note(0, TICK_100, 64, 1_000_000), note(0, TICK_100, 67, 1_000_000)],
        TPM_120,
    )
    .unwrap();
    let kinds: Vec<MidiEventKind> = events.iter().map(|e| e.kind).collect();
    assert_eq!(
        kinds,
        vec![
            MidiEventKind::NoteOn { key: 60, vel: 127 },
            MidiEventKind::NoteOn { key: 64, vel: 127 },
            MidiEventKind::NoteOn { key: 67, vel: 127 },
            MidiEventKind::NoteOff { key: 60, vel: 127 },
            MidiEventKind::NoteOff { key: 64, vel: 127 },
            MidiEventKind::NoteOff { key: 67, vel: 127 },
        ]
    );
}

#[test]
fn many_notes_in_falling_order_are_sorted() {
    let notes: Vec<NoteEventTime> = (0..40_000u128).rev().map(|k| note(k * TICK_100, TICK_100 / 2, 60, 500_000)).collect();
    let events = generate_ordered_midi_events(notes, TPM_120).unwrap();
    assert_eq!(events.len(), 80_000);
    assert_eq!(events[0], DeltaEvent { delta: 0, kind: MidiEventKind::NoteOn { key: 60, vel: 64 } });
    for pair in events[1..].chunks(2) {
        assert_eq!(pair[0], DeltaEvent { delta: 50, kind: MidiEventKind::NoteOff { key: 60, vel: 64 } });
        if pair.len() == 2 {
            assert_eq!(pair[1], DeltaEvent { delta: 50, kind: MidiEventKind::NoteOn { key: 60, vel: 64 } });
        }
    }
}

#[test]
fn ticks_are_rounded_to_the_nearest() {
    // One tick lasts 4593.75 time units.
    let events = generate_ordered_midi_events(vec![note(2_296, 2_297, 60, 0)], TPM_120).unwrap();
    assert_eq!(absolute_ticks(&events), vec![0, 1]);
    let events = generate_ordered_midi_events(vec![note(2_297, 6_890, 60, 0)], TPM_120).unwrap();
    assert_eq!(absolute_ticks(&events), vec![1, 2]);
    let events = generate_ordered_midi_events(vec![note(2_297, 6_891, 60, 0)], TPM_120).unwrap();
    assert_eq!(absolute_ticks(&events), vec![1, 3]);
}

#[test]
fn velocity_is_the_rounded_amplitude() {
    let vel = |amplitude: u32| match generate_ordered_midi_events(vec![note(0, TICK_100, 60, amplitude)], TPM_120)
        .unwrap()[0]
        .kind
    {
        MidiEventKind::NoteOn { vel, .. } => vel,
        _ => panic!("the first event strikes the key"),
    };
    assert_eq!(vel(0), 0);
    assert_eq!(vel(3_937), 0);
    assert_eq!(vel(3_938), 1);
    assert_eq!(vel(500_000), 64);
    assert_eq!(vel(996_062), 126);
    assert_eq!(vel(996_063), 127);
    assert_eq!(vel(1_000_000), 127);
}

#[test]
fn bends_are_spread_over_the_note() {
    // The note lasts 96 ticks.
    let mut bent = note(0, 441_000, 60, 1_000_000);
    bent.pitch_bends = Some(vec![-1, 0, 2]);
    let events = generate_ordered_midi_events(vec![bent], TPM_120).unwrap();
    assert_eq!(
        events,
        vec![
            DeltaEvent { delta: 0, kind: MidiEventKind::NoteOn { key: 60, vel: 127 } },
            DeltaEvent { delta: 1, kind: MidiEventKind::PitchBend { bend: 0x1FFF } },
            DeltaEvent { delta: 31, kind: MidiEventKind::PitchBend { bend: 0x2000 } },
            DeltaEvent { delta: 32, kind: MidiEventKind::PitchBend { bend: 0x2002 } },
            DeltaEvent { delta: 32, kind: MidiEventKind::NoteOff { key: 60, vel: 127 } },
        ]
    );
}

#[test]
fn bend_ticks_are_rounded_to_the_nearest() {
    // One second at 3 ticks per second: the second of two bends falls on tick 1.5.
    let mut bent = note(0, TIME_UNITS_PER_SECOND as u128, 60, 1_000_000);
    bent.pitch_bends = Some(vec![0, 0]);
    let events = generate_ordered_midi_events(vec![bent], 180).unwrap();
    assert_eq!(
        events,
        vec![
            DeltaEvent { delta: 0, kind: MidiEventKind::NoteOn { key: 60, vel: 127 } },
            DeltaEvent { delta: 1, kind: MidiEventKind::PitchBend { bend: 0x2000 } },
            DeltaEvent { delta: 1, kind: MidiEventKind::PitchBend { bend: 0x2000 } },
            DeltaEvent { delta: 1, kind: MidiEventKind::NoteOff { key: 60, vel: 127 } },
        ]
    );
}

#[test]
fn the_first_bend_comes_one_tick_after_the_strike() {
    let mut bent = note(TICK_100, TICK_100, 60, 1_000_000);
    bent.pitch_bends = Some(vec![5]);
    let events = generate_ordered_midi_events(vec![bent], TPM_120).unwrap();
    assert_eq!(absolute_ticks(&events), vec![100, 101, 200]);
    assert_eq!(events[1].kind, MidiEventKind::PitchBend { bend: 0x2005 });
}

#[test]
fn bends_are_held_inside_fourteen_bits() {
    let mut bent = note(0, 441_000, 60, 1_000_000);
    bent.pitch_bends = Some(vec![-8192, -8193, 8191, 8192, i64::MIN, i64::MAX]);
    let events = generate_ordered_midi_events(vec![bent], TPM_120).unwrap();
    let bends: Vec<u16> = events
        .iter()
        .filter_map(|e| match e.kind {
            MidiEventKind::PitchBend { bend } => Some(bend),
            _ => None,
        })
        .collect();
    assert_eq!(bends, vec![0, 0, 0x3FFF, 0x3FFF, 0, 0x3FFF]);
}

#[test]
fn an_empty_list_of_bends_adds_no_event() {
    let mut bent = note(0, TICK_100, 60, 1_000_000);
    bent.pitch_bends = Some(vec![]);
    let events = generate_ordered_midi_events(vec![bent], TPM_120).unwrap();
    assert_eq!(events.len(), 2);
}

#[test]
fn no_notes_give_no_events() {
    assert_eq!(generate_ordered_midi_events(vec![], TPM_120), Ok(vec![]));
}

#[test]
fn a_tick_rate_of_zero_is_refused() {
    assert_eq!(generate_ordered_midi_events(vec![], 0), Err(PipelineError::Config));
    assert_eq!(generate_ordered_midi_events(vec![note(0, 1, 60, 0)], 0), Err(PipelineError::Config));
}

#[test]
fn ticks_beyond_32_bits_are_refused() {
    let late = note(u128::MAX, 0, 60, 0);
    assert_eq!(generate_ordered_midi_events(vec![late], TPM_120), Err(PipelineError::TimeRange));
    let long = note(0, u64::MAX as u128 + 1, 60, 0);
    assert_eq!(generate_ordered_midi_events(vec![long], TPM_120), Err(PipelineError::TimeRange));
    // Tick 2^32 - 1 is the last that fits.
    let last = note(4_294_967_295 * 18_375 / 4, 0, 60, 0);
    assert!(generate_ordered_midi_events(vec![last], TPM_120).is_ok());
    let beyond = note(4_294_967_296 * 18_375 / 4, 0, 60, 0);
    assert_eq!(generate_ordered_midi_events(vec![beyond], TPM_120), Err(PipelineError::TimeRange));
    let mut bent = note(4_294_967_295 * 18_375 / 4, 0, 60, 0);
    bent.pitch_bends = Some(vec![0]);
    assert_eq!(generate_ordered_midi_events(vec![bent], TPM_120), Err(PipelineError::TimeRange));
}

#[test]
fn midi_file_of_one_note() {
    let half = TIME_UNITS_PER_SECOND as u128 / 2;
    let bytes = generate_midi_file_data(&vec![note(half, half / 2, 60, 1_000_000)], 120).unwrap();
    let expected: Vec<u8> = vec![
        b'M', b'T', b'h', b'd', 0, 0, 0, 6, 0, 0, 0, 1, 0x01, 0xE0, // header: one track, 480 ticks per beat
        b'M', b'T', b'r', b'k', 0, 0, 0, 17, // track of 17 bytes
        0x00, 0xFF, 0x51, 0x03, 0x07, 0xA1, 0x20, // tempo: 500000 microseconds per beat
        0x83, 0x60, 0x90, 60, 127, // after 480 ticks: strike
        0x81, 0x70, 0x80, 60, 127, // after 240 ticks: release
    ];
    assert_eq!(bytes, expected);
}

#[test]
fn midi_file_is_read_back_by_the_parser() {
    let mut bent = note(0, 441_000, 72, 500_000);
    bent.pitch_bends = Some(vec![3, -3]);
    let bytes = generate_midi_file_data(&vec![bent, note(TICK_100, TICK_100, 48, 1_000_000)], 100).unwrap();
    let smf = midly::Smf::parse(&bytes).unwrap();
    assert_eq!(smf.header.format, midly::Format::SingleTrack);
    assert_eq!(smf.header.timing, midly::Timing::Metrical(midly::num::u15::new(480)));
    assert_eq!(smf.tracks.len(), 1);
    let track = &smf.tracks[0];
    assert_eq!(track.len(), 7);
    assert_eq!(track[0].delta.as_int(), 0);
    assert_eq!(
        track[0].kind,
        midly::TrackEventKind::Meta(midly::MetaMessage::Tempo(midly::num::u24::new(600_000)))
    );
    let expected = generate_ordered_midi_events(
        vec![
            NoteEventTime {
                start_time: 0,
                duration: 441_000,
                pitch_midi: 72,
                amplitude: 500_000,
                pitch_bends: Some(vec![3, -3]),
            },
            note(TICK_100, TICK_100, 48, 1_000_000),
        ],
        480 * 100,
    )
    .unwrap();
    for (read, made) in track[1..].iter().zip(expected.iter()) {
        assert_eq!(read.delta.as_int(), made.delta);
        let message = match read.kind {
            midly::TrackEventKind::Midi { channel, message } => {
                assert_eq!(channel.as_int(), 0);
                message
            }
            _ => panic!("only channel messages follow the tempo"),
        };
        let kind = match message {
            midly::MidiMessage::NoteOn { key, vel } => MidiEventKind::NoteOn { key: key.as_int(), vel: vel.as_int() },
            midly::MidiMessage::NoteOff { key, vel } => MidiEventKind::NoteOff { key: key.as_int(), vel: vel.as_int() },
            midly::MidiMessage::PitchBend { bend } => MidiEventKind::PitchBend { bend: bend.0.as_int() },
            _ => panic!("no other message is written"),
        };
        assert_eq!(kind, made.kind);
    }
}

#[test]
fn midi_file_without_notes_holds_the_tempo() {
    let bytes = generate_midi_file_data(&vec![], 60).unwrap();
    let expected: Vec<u8> = vec![
        b'M', b'T', b'h', b'd', 0, 0, 0, 6, 0, 0, 0, 1, 0x01, 0xE0, b'M', b'T', b'r', b'k', 0, 0, 0, 7, 0x00, 0xFF,
        0x51, 0x03, 0x0F, 0x42, 0x40,
    ];
    assert_eq!(bytes, expected);
}

#[test]
fn midi_file_is_the_same_on_every_run() {
    let notes = vec![note(TICK_100, TICK_100, 60, 1_000_000), note(0, TICK_100, 60, 250_000)];
    assert_eq!(generate_midi_file_data(&notes, 120), generate_midi_file_data(&notes, 120));
}

#[test]
fn a_tempo_of_zero_is_refused() {
    assert_eq!(generate_midi_file_data(&vec![], 0), Err(PipelineError::Config));
    assert_eq!(generate_midi_file_data(&vec![note(0, 1, 60, 0)], 0), Err(PipelineError::Config));
}

#[test]
fn a_tempo_too_slow_for_the_tempo_event_is_refused() {
    // 60000000 / 3 microseconds per beat do not fit 24 bits; 60000000 / 4 do.
    assert_eq!(generate_midi_file_data(&vec![], 3), Err(PipelineError::Config));
    assert!(generate_midi_file_data(&vec![], 4).is_ok());
}

#[test]
fn a_delta_time_beyond_28_bits_is_refused() {
    // Tick 2^28 at 960 ticks per second.
    let first = 268_435_456 * 18_375 / 4;
    assert_eq!(generate_midi_file_data(&vec![note(first, 0, 60, 0)], 120), Err(PipelineError::TimeRange));
    let last = 268_435_455 * 18_375 / 4;
    assert!(generate_midi_file_data(&vec![note(last, 0, 60, 0)], 120).is_ok());
    assert!(generate_ordered_midi_events(vec![note(first, 0, 60, 0)], TPM_120).is_ok());
}

#[test]
fn a_refusal_of_the_writer_becomes_an_error() {
    assert_eq!(finish_midi_file(None), Err(PipelineError::Encoding));
    assert_eq!(finish_midi_file(Some(vec![1, 2, 3])), Ok(vec![1, 2, 3]));
}

#[test]
fn every_error_has_a_message() {
    for e in [
        PipelineError::Shape,
        PipelineError::Config,
        PipelineError::ArithmeticDegeneracy,
        PipelineError::TimeRange,
        PipelineError::Encoding,
    ] {
        assert!(!e.message().is_empty());
    }
}
