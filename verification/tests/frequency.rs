use audio_to_midi::frequency::{hz_to_midi, hz_to_midi_ceil, midi_to_hz};

#[test]
fn concert_pitch_is_pitch_69() {
    assert_eq!(hz_to_midi(440_000), 69);
    assert_eq!(hz_to_midi(440_001), 69);
    assert_eq!(hz_to_midi(439_999), 68);
}

#[test]
fn an_octave_is_twelve_pitches() {
    assert_eq!(hz_to_midi(880_000), 81);
    assert_eq!(hz_to_midi(220_000), 57);
    assert_eq!(hz_to_midi(27_500), 21);
    assert_eq!(hz_to_midi(27_499), 20);
}

#[test]
fn pitches_between_the_octaves() {
    // Pitch 61 sounds at 277.1826 Hz, pitch 62 at 293.6648 Hz.
    assert_eq!(hz_to_midi(277_182), 60);
    assert_eq!(hz_to_midi(277_183), 61);
    assert_eq!(hz_to_midi(293_664), 61);
    assert_eq!(hz_to_midi(293_665), 62);
    assert_eq!(hz_to_midi(450_000), 69);
}

#[test]
fn frequencies_below_all_pitches_have_pitch_zero() {
    // Pitch 0 sounds at 8.1758 Hz, pitch 1 at 8.6620 Hz.
    assert_eq!(hz_to_midi(0), 0);
    assert_eq!(hz_to_midi(8_175), 0);
    assert_eq!(hz_to_midi(8_176), 0);
    assert_eq!(hz_to_midi(8_661), 0);
    assert_eq!(hz_to_midi(8_662), 1);
}

#[test]
fn the_highest_frequency_has_a_pitch() {
    assert_eq!(hz_to_midi(u32::MAX), 228);
    assert_eq!(hz_to_midi(4_286_473_262), 228);
    assert_eq!(hz_to_midi(4_286_473_261), 227);
}

#[test]
fn frequencies_of_pitches_are_rounded_up() {
    assert_eq!(midi_to_hz(69), Some(440_000));
    assert_eq!(midi_to_hz(81), Some(880_000));
    assert_eq!(midi_to_hz(21), Some(27_500));
    assert_eq!(midi_to_hz(60), Some(261_626));
    assert_eq!(midi_to_hz(61), Some(277_183));
    assert_eq!(midi_to_hz(108), Some(4_186_010));
    assert_eq!(midi_to_hz(127), Some(12_543_854));
    assert_eq!(midi_to_hz(0), Some(8_176));
    assert_eq!(midi_to_hz(1), Some(8_662));
}

#[test]
fn frequencies_beyond_32_bits_are_none() {
    assert_eq!(midi_to_hz(227), Some(4_045_892_004));
    assert_eq!(midi_to_hz(228), Some(4_286_473_262));
    assert_eq!(midi_to_hz(229), None);
    assert_eq!(midi_to_hz(239), None);
    assert_eq!(midi_to_hz(240), None);
    assert_eq!(midi_to_hz(usize::MAX), None);
}

#[test]
fn the_frequency_of_a_pitch_has_that_pitch() {
    for pitch in 1..=228 {
        let mhz = midi_to_hz(pitch).unwrap();
        assert_eq!(hz_to_midi(mhz), pitch);
        assert_eq!(hz_to_midi(mhz - 1), pitch - 1);
    }
}

#[test]
fn the_pitch_at_or_above_a_frequency() {
    assert_eq!(hz_to_midi_ceil(440_000), 69);
    assert_eq!(hz_to_midi_ceil(439_999), 69);
    assert_eq!(hz_to_midi_ceil(440_001), 70);
    assert_eq!(hz_to_midi_ceil(450_000), 70);
    assert_eq!(hz_to_midi_ceil(27_500), 21);
    assert_eq!(hz_to_midi_ceil(27_499), 21);
    assert_eq!(hz_to_midi_ceil(27_501), 22);
    assert_eq!(hz_to_midi_ceil(880_000), 81);
}

#[test]
fn the_pitch_at_or_above_is_the_next_where_the_frequency_is_off_a_pitch() {
    // Pitch 61 sounds at 277.1826 Hz.
    assert_eq!(hz_to_midi_ceil(277_182), 61);
    assert_eq!(hz_to_midi_ceil(277_183), 62);
    assert_eq!(hz_to_midi_ceil(280_000), 62);
    assert_eq!(hz_to_midi_ceil(0), 0);
    assert_eq!(hz_to_midi_ceil(8_175), 0);
    assert_eq!(hz_to_midi_ceil(8_176), 1);
    assert_eq!(hz_to_midi_ceil(u32::MAX), 229);
}

#[test]
fn the_two_pitches_of_a_frequency_lie_at_most_one_apart() {
    for mhz in (0..2_000_000).step_by(997).chain([27_500, 55_000, 110_000, 220_000, 440_000, 880_000]) {
        let below = hz_to_midi(mhz);
        let above = hz_to_midi_ceil(mhz);
        assert!(above == below || above == below + 1);
        // They agree on the octaves of 13.75 Hz, which are the pitches of whole
        // millihertz, and below all pitches.
        let on_a_pitch = mhz > 0 && mhz % 13_750 == 0 && (mhz / 13_750).is_power_of_two();
        assert_eq!(above == below, on_a_pitch || mhz < 8_176);
    }
}
