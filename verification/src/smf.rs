//! The calls into the `midly` crate, which encodes the track.
//!
//! The contracts in this module are taken on trust: they say what `midly`
//! does, and nothing here proves them. The events of a track are built one
//! by one as values of `midly`, and the finished track is handed to its
//! writer.

use vstd::prelude::*;
use midly::num::{u14, u15, u24, u28, u4, u7};
use midly::{Format, Header, MetaMessage, MidiMessage, PitchBend, Smf, Timing, TrackEvent, TrackEventKind};
use crate::constants::PITCH_BEND_MAX;
use crate::midi::{DeltaEvent, MidiEventKind, MAX_DELTA, MAX_TEMPO, MAX_TICKS_PER_BEAT};

verus! {

/// `midly::TrackEvent`: an event of a track with its delta time. Its
/// values are carried from where they are built to the writer and are
/// never looked into.
#[verifier::external_type_specification]
#[verifier::external_body]
pub struct ExTrackEvent<'a>(TrackEvent<'a>);

/// The view of a `midly::TrackEvent` on channel 0: its delta time and the
/// event that it holds. (A `MidiEventKind` has no channel: all events of
/// this library are on channel 0, and only the four functions below make a
/// `TrackEvent`.)
pub uninterp spec fn track_event_view(event: TrackEvent<'static>) -> DeltaEvent;

/// The bytes that `midly` writes for a file of format `SingleTrack` with
/// `ticks_per_beat` ticks per beat and one track of the events `events`,
/// or `None` where it refuses to write it.
pub uninterp spec fn smf_encoding(ticks_per_beat: u16, events: Seq<DeltaEvent>) -> Option<Seq<u8>>;

/// The views of the track events of `track`.
pub open spec fn track_views(track: Seq<TrackEvent<'static>>) -> Seq<DeltaEvent> {
    track.map_values(|event: TrackEvent<'static>| track_event_view(event))
}

/// Builds a `midly::TrackEvent` that holds `MetaMessage::Tempo`. The
/// fields are required to fit their widths, so that `u28::new` and
/// `u24::new` keep them as they are.
#[verifier::external_body]
pub(crate) fn tempo_track_event(delta: u32, micros_per_beat: u32) -> (event: TrackEvent<'static>)
    requires
        delta <= MAX_DELTA,
        micros_per_beat <= MAX_TEMPO,
    ensures
        track_event_view(event) == (DeltaEvent { delta, kind: MidiEventKind::Tempo { micros_per_beat } }),
{
    TrackEvent { delta: u28::new(delta), kind: TrackEventKind::Meta(MetaMessage::Tempo(u24::new(micros_per_beat))) }
}

/// Builds a `midly::TrackEvent` that holds `MidiMessage::NoteOn` on channel
/// 0. The fields are required to fit their widths, so that `u28::new` and
/// `u7::new` keep them as they are.
#[verifier::external_body]
pub(crate) fn note_on_track_event(delta: u32, key: u8, vel: u8) -> (event: TrackEvent<'static>)
    requires
        delta <= MAX_DELTA,
        key <= 127,
        vel <= 127,
    ensures
        track_event_view(event) == (DeltaEvent { delta, kind: MidiEventKind::NoteOn { key, vel } }),
{
    let message = MidiMessage::NoteOn { key: u7::new(key), vel: u7::new(vel) };
    TrackEvent { delta: u28::new(delta), kind: TrackEventKind::Midi { channel: u4::new(0), message } }
}

/// Builds a `midly::TrackEvent` that holds `MidiMessage::NoteOff` on
/// channel 0. The fields are required to fit their widths, so that
/// `u28::new` and `u7::new` keep them as they are.
#[verifier::external_body]
pub(crate) fn note_off_track_event(delta: u32, key: u8, vel: u8) -> (event: TrackEvent<'static>)
    requires
        delta <= MAX_DELTA,
        key <= 127,
        vel <= 127,
    ensures
        track_event_view(event) == (DeltaEvent { delta, kind: MidiEventKind::NoteOff { key, vel } }),
{
    let message = MidiMessage::NoteOff { key: u7::new(key), vel: u7::new(vel) };
    TrackEvent { delta: u28::new(delta), kind: TrackEventKind::Midi { channel: u4::new(0), message } }
}

/// Builds a `midly::TrackEvent` that holds `MidiMessage::PitchBend` on
/// channel 0. The fields are required to fit their widths, so that
/// `u28::new` and `u14::new` keep them as they are.
#[verifier::external_body]
pub(crate) fn pitch_bend_track_event(delta: u32, bend: u16) -> (event: TrackEvent<'static>)
    requires
        delta <= MAX_DELTA,
        bend <= PITCH_BEND_MAX,
    ensures
        track_event_view(event) == (DeltaEvent { delta, kind: MidiEventKind::PitchBend { bend } }),
{
    let message = MidiMessage::PitchBend { bend: PitchBend(u14::new(bend)) };
    TrackEvent { delta: u28::new(delta), kind: TrackEventKind::Midi { channel: u4::new(0), message } }
}

/// Calls `midly::Smf::write_std` on a file of format `SingleTrack`, metrical
/// timing and the one track `track`, into a buffer in memory. The bytes
/// written depend on the header and on the events alone; where the writer
/// reports an error, the result is `None`.
#[verifier::external_body]
pub(crate) fn write_single_track(ticks_per_beat: u16, track: Vec<TrackEvent<'static>>) -> (bytes: Option<Vec<u8>>)
    requires
        ticks_per_beat <= MAX_TICKS_PER_BEAT,
    ensures
        match bytes {
            Some(written) => smf_encoding(ticks_per_beat, track_views(track@)) == Some(written@),
            None => smf_encoding(ticks_per_beat, track_views(track@)) is None,
        },
{
    let mut smf = Smf::new(Header::new(Format::SingleTrack, Timing::Metrical(u15::new(ticks_per_beat))));
    smf.tracks.push(track);
    let mut buffer = Vec::new();
    smf.write_std(&mut buffer).ok().map(|_| buffer)
}

} // verus!
