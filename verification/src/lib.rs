//! Decoding of polyphonic pitch activations into notes, and of notes into a
//! single-track MIDI file.
//!
//! A pitch model gives three matrices of activations with one row for
//! every frame of the audio: `frames` and `onsets` with one column for
//! every semitone, `contours` with three. The stages of this library turn
//! them into a MIDI file:
//!
//! 1. [`stitch`] joins the windows in which the model was run into one
//!    time line.
//! 2. [`note_event_frames`] decodes `frames` and `onsets` into notes, in
//!    the two passes of [`onset_pass`] and [`melodia`] over the energy of
//!    [`energy`], with the array primitives of [`kernel`], the
//!    preparations of [`helpers`] and the pitches of [`frequency`].
//! 3. [`pitch_bends`] adds to every note the bends that `contours` shows.
//! 4. [`note_event_times`] moves the notes from frames to time, by the
//!    clock of [`timing`].
//! 5. [`midi`] schedules the notes as MIDI events, puts them in the order
//!    of [`event_order`], and has the track encoded by the `midly` crate,
//!    which it calls through [`smf`].
//!
//! All quantities are integers. Activations are fixed-point numbers with
//! [`constants::ACTIVATION_ONE`] standing for `1.0`; times are counted in
//! units of `1 / constants::TIME_UNITS_PER_SECOND` seconds, a resolution in
//! which every frame boundary is a whole number. Outside [`smf`], every
//! function is proved to return what its contract states. Contracts are
//! stated over the mathematical values of the data: sequences of rows for
//! matrices, [`note_event_frames::FrameNote`] and
//! [`note_event_times::TimeNote`] for notes.

pub mod constants;
pub mod energy;
pub mod error;
pub mod event_order;
pub mod frequency;
pub mod helpers;
pub mod kernel;
pub mod matrix;
pub mod melodia;
pub mod midi;
pub mod note_event_frames;
pub mod note_event_times;
pub mod onset_pass;
pub mod pitch_bends;
pub mod smf;
pub mod stitch;
pub mod timing;
