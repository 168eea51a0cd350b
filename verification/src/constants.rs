//! Fixed parameters of the activation model and of the MIDI output.

use vstd::prelude::*;

verus! {

/// Sample rate of the audio the activations were computed from, in Hz.
pub const AUDIO_SAMPLE_RATE: usize = 22050;

/// Samples between two consecutive activation frames.
pub const FFT_HOP: usize = 256;

/// Whole activation frames per second (`AUDIO_SAMPLE_RATE / FFT_HOP`, rounded down).
pub const ANNOTATIONS_FPS: usize = 86;

/// Length of one analysis window, in seconds.
pub const AUDIO_WINDOW_LENGTH: usize = 2;

/// Samples in one analysis window.
pub const AUDIO_N_SAMPLES: usize = 43844;

/// Activation frames in one analysis window.
pub const ANNOT_N_FRAMES: usize = 172;

/// MIDI number of the pitch in column 0 of a frame or onset matrix.
pub const MIDI_OFFSET: usize = 21;

/// Highest column of a frame or onset matrix of the standard 88-key layout.
pub const MAX_FREQ_IDX: usize = 87;

/// Contour bins per semitone.
pub const CONTOURS_BINS_PER_SEMITONE: usize = 3;

/// Semitones covered by the activation matrices.
pub const ANNOTATIONS_N_SEMITONES: usize = 88;

/// Columns of a contour matrix of the standard layout.
pub const N_FREQ_BINS_CONTOURS: usize = 264;

/// The fixed-point value that stands for an activation of `1.0`.
pub const ACTIVATION_ONE: u32 = 1_000_000;

/// Time units per second. It is the least resolution in which both the hop
/// between frames (256 / 22050 s) and the per-window correction (0.0018 s)
/// are whole numbers.
pub const TIME_UNITS_PER_SECOND: u64 = 4_410_000;

/// Time units between two consecutive frames.
pub const HOP_TIME_UNITS: u64 = 51_200;

/// Time units by which every completed analysis window pulls the time line back.
pub const WINDOW_OFFSET_TIME_UNITS: u64 = 7_938;

/// MIDI ticks per beat declared in the file header.
pub const TICKS_PER_BEAT: u16 = 480;

/// Centre value of the 14-bit MIDI pitch-bend range.
pub const PITCH_BEND_CENTER: u16 = 0x2000;

/// Largest value of the 14-bit MIDI pitch-bend range.
pub const PITCH_BEND_MAX: u16 = 0x3FFF;

} // verus!
