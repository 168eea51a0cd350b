//! Notes in the time domain.

use vstd::prelude::*;
use crate::constants::{ACTIVATION_ONE, MIDI_OFFSET};
use crate::energy::decoded_note;
use crate::note_event_frames::{FrameNote, NoteEventFrame, note_views};
use crate::timing::{frame_time, lemma_frame_time_monotonic, time_of_frame};

verus! {

/// A note in the time domain. Times are counted in time units.
#[derive(Debug)]
pub struct NoteEventTime {
    /// Time at which the note starts.
    pub start_time: u128,
    /// Time the note lasts.
    pub duration: u128,
    /// MIDI number of the pitch.
    pub pitch_midi: usize,
    /// Mean activation over the note, in fixed point.
    pub amplitude: u32,
    /// Signed contour-bin offsets, spread evenly over the note.
    pub pitch_bends: Option<Vec<i64>>,
}

/// The mathematical value of a [`NoteEventTime`].
pub struct TimeNote {
    pub start_time: int,
    pub duration: int,
    pub pitch_midi: int,
    pub amplitude: int,
    pub pitch_bends: Option<Seq<i64>>,
}

impl View for NoteEventTime {
    type V = TimeNote;

    open spec fn view(&self) -> TimeNote {
        TimeNote {
            start_time: self.start_time as int,
            duration: self.duration as int,
            pitch_midi: self.pitch_midi as int,
            amplitude: self.amplitude as int,
            pitch_bends: match self.pitch_bends {
                Some(bends) => Some(bends@),
                None => None,
            },
        }
    }
}

impl Clone for NoteEventTime {
    fn clone(&self) -> (copy: Self)
        ensures
            copy@ == self@,
    {
        NoteEventTime {
            start_time: self.start_time,
            duration: self.duration,
            pitch_midi: self.pitch_midi,
            amplitude: self.amplitude,
            pitch_bends: match &self.pitch_bends {
                Some(bends) => Some(bends.clone()),
                None => None,
            },
        }
    }
}

impl TimeNote {
    /// The pitch is a MIDI number and the amplitude does not exceed 1.
    pub open spec fn well_formed(self) -> bool {
        &&& 0 <= self.pitch_midi <= 127
        &&& 0 <= self.amplitude <= ACTIVATION_ONE
        &&& 0 <= self.start_time
        &&& 0 <= self.duration
    }
}

/// The mathematical values of a sequence of notes.
pub open spec fn time_note_views(notes: Seq<NoteEventTime>) -> Seq<TimeNote> {
    notes.map_values(|n: NoteEventTime| n@)
}

/// The note `note` in the time domain: it starts when its first frame
/// begins and lasts until the frame after its last begins.
pub open spec fn note_in_time(note: FrameNote) -> TimeNote {
    TimeNote {
        start_time: frame_time(note.start_frame as nat) as int,
        duration: frame_time((note.start_frame + note.duration_frames) as nat) - frame_time(note.start_frame as nat),
        pitch_midi: note.pitch_midi,
        amplitude: note.amplitude,
        pitch_bends: note.pitch_bends,
    }
}

/// Converts notes from the frame domain to the time domain. The duration
/// of a note is the difference of the times of its two ends, which differs
/// from a fixed multiple of its length in frames wherever the note crosses
/// the boundary of an analysis window.
pub fn note_frames_to_time(notes: &Vec<NoteEventFrame>) -> (result: Vec<NoteEventTime>)
    ensures
        time_note_views(result@) == note_views(notes@).map_values(|n: FrameNote| note_in_time(n)),
{
    let mut out: Vec<NoteEventTime> = Vec::new();
    let mut k: usize = 0;
    let ghost want = note_views(notes@).map_values(|n: FrameNote| note_in_time(n));
    while k < notes.len()
        invariant
            k <= notes@.len(),
            want == note_views(notes@).map_values(|n: FrameNote| note_in_time(n)),
            time_note_views(out@) == want.take(k as int),
        decreases notes.len() - k,
    {
        let note: &NoteEventFrame = &notes[k];
        let start: u128 = time_of_frame(note.start_frame as u128);
        let end: u128 = time_of_frame(note.start_frame as u128 + note.duration_frames as u128);
        proof {
            lemma_frame_time_monotonic(note.start_frame as nat, (note.start_frame + note.duration_frames) as nat);
        }
        let converted = NoteEventTime {
            start_time: start,
            duration: end - start,
            pitch_midi: note.pitch_midi,
            amplitude: note.amplitude,
            pitch_bends: match &note.pitch_bends {
                Some(bends) => Some(bends.clone()),
                None => None,
            },
        };
        assert(converted@ == note_in_time(note@));
        assert(want[k as int] == note_in_time(note_views(notes@)[k as int]));
        let ghost before = time_note_views(out@);
        out.push(converted);
        assert(time_note_views(out@) =~= before.push(note_in_time(note@)));
        assert(time_note_views(out@) =~= want.take(k + 1));
        k += 1;
    }
    assert(want.take(notes@.len() as int) =~= want);
    out
}

/// A note decoded from matrices of at most 107 columns that hold no
/// activation above 1 is well formed in the time domain: its pitch is a
/// MIDI number and its amplitude does not exceed 1.
pub proof fn lemma_decoded_note_well_formed(
    note: FrameNote,
    rows: int,
    cols: int,
    loudest: int,
    min_note_len: int,
    max_pitch: Option<usize>,
    min_pitch: Option<usize>,
)
    requires
        decoded_note(note, rows, cols, loudest, min_note_len, max_pitch, min_pitch),
        cols + MIDI_OFFSET <= 128,
        loudest <= ACTIVATION_ONE,
    ensures
        note_in_time(note).well_formed(),
        note_in_time(note).duration > 0,
{
    lemma_frame_time_monotonic(note.start_frame as nat, (note.start_frame + note.duration_frames) as nat);
}

} // verus!
