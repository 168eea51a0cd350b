//! Scheduling of notes as MIDI events and their encoding as a MIDI file.

use vstd::prelude::*;
use midly::TrackEvent;
use crate::constants::{ACTIVATION_ONE, PITCH_BEND_CENTER, PITCH_BEND_MAX, TICKS_PER_BEAT};
use crate::error::PipelineError;
use crate::event_order::{
    all_fit_fields, delta_encoded, encode_deltas, fits_fields, lemma_delta_sums, lemma_release_first,
    lemma_release_first_order, lemma_release_first_ticks, lemma_stable_sort, put_releases_first, release_first,
    releases_follow_directly, releases_precede_strikes, sort_by_tick, stable_sort, tick_after,
};
use crate::note_event_times::{NoteEventTime, TimeNote, time_note_views};
use crate::smf::{
    note_off_track_event, note_on_track_event, pitch_bend_track_event, smf_encoding, tempo_track_event, track_event_view,
    track_views, write_single_track,
};

verus! {

/// Time units per minute.
pub const TIME_UNITS_PER_MINUTE: u64 = 264_600_000;

/// Microseconds per minute.
pub const MICROS_PER_MINUTE: u32 = 60_000_000;

/// Largest tempo, in microseconds per beat, that a tempo event can hold.
pub const MAX_TEMPO: u32 = 0xFF_FFFF;

/// Largest delta time that a track event can hold.
pub const MAX_DELTA: u32 = 0x0FFF_FFFF;

/// Largest number of ticks per beat that a file header can hold.
pub const MAX_TICKS_PER_BEAT: u16 = 0x7FFF;

/// What a MIDI event does. All events are on channel 0.
#[derive(Clone, Copy, Debug, PartialEq, Eq, Structural)]
pub enum MidiEventKind {
    /// A key is struck.
    NoteOn { key: u8, vel: u8 },
    /// A key is released.
    NoteOff { key: u8, vel: u8 },
    /// The pitch wheel moves to a 14-bit position; `0x2000` is the centre.
    PitchBend { bend: u16 },
    /// The tempo is set, in microseconds per beat.
    Tempo { micros_per_beat: u32 },
}

/// A MIDI event stamped with the tick at which it happens.
#[derive(Clone, Copy, Debug, PartialEq, Eq, Structural)]
pub struct MidiEvent {
    pub tick: u32,
    pub kind: MidiEventKind,
}

/// A MIDI event stamped with the ticks that separate it from the event
/// before it in the track.
#[derive(Clone, Copy, Debug, PartialEq, Eq, Structural)]
pub struct DeltaEvent {
    pub delta: u32,
    pub kind: MidiEventKind,
}

/// A MIDI event stamped with a tick of any size.
pub struct TimedEvent {
    pub tick: int,
    pub kind: MidiEventKind,
}

/// `a / b`, rounded to the nearest whole number, halves upwards.
pub open spec fn round_div(a: int, b: int) -> int {
    a / b + if 2 * (a % b) >= b {
        1int
    } else {
        0int
    }
}

/// The tick at which a note starts, at `tpm` ticks per minute.
pub open spec fn start_tick(note: TimeNote, tpm: int) -> int {
    round_div(note.start_time * tpm, TIME_UNITS_PER_MINUTE as int)
}

/// The ticks a note lasts, at `tpm` ticks per minute.
pub open spec fn duration_ticks(note: TimeNote, tpm: int) -> int {
    round_div(note.duration * tpm, TIME_UNITS_PER_MINUTE as int)
}

/// The tick of bend `i` of the `n` bends of a note: the bends are spread
/// evenly over the note, each at the nearest tick, and the first comes one
/// tick after the note starts.
pub open spec fn bend_tick(note: TimeNote, tpm: int, i: int, n: int) -> int {
    start_tick(note, tpm) + round_div(i * (note.duration * tpm), n * TIME_UNITS_PER_MINUTE as int) + if i == 0 {
        1int
    } else {
        0int
    }
}

/// The velocity that stands for an amplitude: 127 for an amplitude of 1.
pub open spec fn velocity(amplitude: int) -> int {
    round_div(amplitude * 127, ACTIVATION_ONE as int)
}

/// The pitch-wheel position that stands for a bend: the centre plus the
/// bend, held inside the 14-bit range.
pub open spec fn bend_value(bend: i64) -> int {
    if bend + PITCH_BEND_CENTER < 0 {
        0
    } else if bend + PITCH_BEND_CENTER > PITCH_BEND_MAX {
        PITCH_BEND_MAX as int
    } else {
        bend + PITCH_BEND_CENTER
    }
}

/// The event that strikes the key of a note.
pub open spec fn note_on_event(note: TimeNote, tpm: int) -> TimedEvent {
    TimedEvent {
        tick: start_tick(note, tpm),
        kind: MidiEventKind::NoteOn { key: note.pitch_midi as u8, vel: velocity(note.amplitude) as u8 },
    }
}

/// The event that releases the key of a note.
pub open spec fn note_off_event(note: TimeNote, tpm: int) -> TimedEvent {
    TimedEvent {
        tick: start_tick(note, tpm) + duration_ticks(note, tpm),
        kind: MidiEventKind::NoteOff { key: note.pitch_midi as u8, vel: velocity(note.amplitude) as u8 },
    }
}

/// The first `upto` pitch-bend events of a note.
pub open spec fn bend_events(note: TimeNote, tpm: int, bends: Seq<i64>, upto: int) -> Seq<TimedEvent> {
    Seq::new(
        upto as nat,
        |i: int|
            TimedEvent {
                tick: bend_tick(note, tpm, i, bends.len() as int),
                kind: MidiEventKind::PitchBend { bend: bend_value(bends[i]) as u16 },
            },
    )
}

/// The events of one note: its key struck, its key released, its bends.
pub open spec fn note_events(note: TimeNote, tpm: int) -> Seq<TimedEvent> {
    seq![note_on_event(note, tpm), note_off_event(note, tpm)] + match note.pitch_bends {
        Some(bends) => bend_events(note, tpm, bends, bends.len() as int),
        None => Seq::empty(),
    }
}

/// The events of the first `n` notes, note after note.
pub open spec fn timed_events_upto(notes: Seq<TimeNote>, tpm: int, n: int) -> Seq<TimedEvent>
    decreases n,
{
    if n <= 0 {
        Seq::empty()
    } else {
        timed_events_upto(notes, tpm, n - 1) + note_events(notes[n - 1], tpm)
    }
}

/// The events of all notes, note after note.
pub open spec fn timed_events(notes: Seq<TimeNote>, tpm: int) -> Seq<TimedEvent> {
    timed_events_upto(notes, tpm, notes.len() as int)
}

/// Every tick of `events` fits an unsigned 32-bit number.
pub open spec fn ticks_fit(events: Seq<TimedEvent>) -> bool {
    forall|k: int| 0 <= k < events.len() ==> 0 <= (#[trigger] events[k]).tick <= u32::MAX
}

/// The events `events` with their ticks as 32-bit numbers.
pub open spec fn narrowed(events: Seq<TimedEvent>) -> Seq<MidiEvent> {
    Seq::new(events.len(), |k: int| MidiEvent { tick: events[k].tick as u32, kind: events[k].kind })
}

/// The events of the first notes are the first events of all notes.
pub proof fn lemma_timed_events_prefix(notes: Seq<TimeNote>, tpm: int, n: int, m: int)
    requires
        0 <= n <= m,
    ensures
        timed_events_upto(notes, tpm, n).len() <= timed_events_upto(notes, tpm, m).len(),
        forall|k: int|
            0 <= k < timed_events_upto(notes, tpm, n).len() ==> (#[trigger] timed_events_upto(notes, tpm, m)[k])
                == timed_events_upto(notes, tpm, n)[k],
    decreases m - n,
{
    if n < m {
        lemma_timed_events_prefix(notes, tpm, n, m - 1);
    }
}

/// All notes are well formed.
pub open spec fn all_well_formed(notes: Seq<TimeNote>) -> bool {
    forall|k: int| 0 <= k < notes.len() ==> (#[trigger] notes[k]).well_formed()
}

fn rounded_quotient(a: u128, b: u128) -> (q: u128)
    requires
        b > 0,
        a / b < u128::MAX,
    ensures
        q == round_div(a as int, b as int),
{
    let whole: u128 = a / b;
    let rest: u128 = a % b;
    if rest >= b - rest {
        whole + 1
    } else {
        whole
    }
}

fn velocity_of(amplitude: u32) -> (vel: u8)
    requires
        amplitude <= ACTIVATION_ONE,
    ensures
        vel == velocity(amplitude as int),
        vel <= 127,
{
    let scaled: u128 = (amplitude as u128) * 127;
    let q: u128 = rounded_quotient(scaled, ACTIVATION_ONE as u128);
    q as u8
}

fn bend_value_of(bend: i64) -> (value: u16)
    ensures
        value == bend_value(bend),
        value <= PITCH_BEND_MAX,
{
    if bend < -(PITCH_BEND_CENTER as i64) {
        0
    } else if bend > (PITCH_BEND_MAX - PITCH_BEND_CENTER) as i64 {
        PITCH_BEND_MAX
    } else {
        (bend + PITCH_BEND_CENTER as i64) as u16
    }
}

fn schedule_note(events: &mut Vec<MidiEvent>, note: &NoteEventTime, ticks_per_minute: u64) -> (fits: bool)
    requires
        note@.well_formed(),
        ticks_per_minute > 0,
    ensures
        fits == ticks_fit(note_events(note@, ticks_per_minute as int)),
        fits ==> final(events)@ == old(events)@ + narrowed(note_events(note@, ticks_per_minute as int)),
{
    let ghost tpm = ticks_per_minute as int;
    let ghost all = note_events(note@, tpm);
    let ghost base = events@;
    assert(all[0] == note_on_event(note@, tpm));
    assert(all[1] == note_off_event(note@, tpm));
    let per_minute: u128 = TIME_UNITS_PER_MINUTE as u128;
    if note.start_time > u64::MAX as u128 {
        assert((note.start_time * tpm) / (TIME_UNITS_PER_MINUTE as int) > u32::MAX) by (nonlinear_arith)
            requires
                note.start_time >= 0x1_0000_0000_0000_0000,
                tpm >= 1,
        ;
        assert(all[0].tick > u32::MAX);
        return false;
    }
    assert(note.start_time * ticks_per_minute <= 0xFFFF_FFFF_FFFF_FFFF * 0xFFFF_FFFF_FFFF_FFFF) by (nonlinear_arith)
        requires
            note.start_time <= 0xFFFF_FFFF_FFFF_FFFF,
            ticks_per_minute <= 0xFFFF_FFFF_FFFF_FFFF,
    ;
    let start: u128 = rounded_quotient(note.start_time * (ticks_per_minute as u128), per_minute);
    if start > u32::MAX as u128 {
        assert(all[0].tick > u32::MAX);
        return false;
    }
    if note.duration > u64::MAX as u128 {
        assert((note.duration * tpm) / (TIME_UNITS_PER_MINUTE as int) > u32::MAX) by (nonlinear_arith)
            requires
                note.duration >= 0x1_0000_0000_0000_0000,
                tpm >= 1,
        ;
        assert(all[1].tick > u32::MAX);
        return false;
    }
    assert(note.duration * ticks_per_minute <= 0xFFFF_FFFF_FFFF_FFFF * 0xFFFF_FFFF_FFFF_FFFF) by (nonlinear_arith)
        requires
            note.duration <= 0xFFFF_FFFF_FFFF_FFFF,
            ticks_per_minute <= 0xFFFF_FFFF_FFFF_FFFF,
    ;
    let span: u128 = note.duration * (ticks_per_minute as u128);
    let length: u128 = rounded_quotient(span, per_minute);
    if length > u32::MAX as u128 - start {
        assert(all[1].tick > u32::MAX);
        return false;
    }
    let key: u8 = note.pitch_midi as u8;
    let vel: u8 = velocity_of(note.amplitude);
    events.push(MidiEvent { tick: start as u32, kind: MidiEventKind::NoteOn { key, vel } });
    events.push(MidiEvent { tick: (start + length) as u32, kind: MidiEventKind::NoteOff { key, vel } });
    match &note.pitch_bends {
        Some(bends) => {
            let n: usize = bends.len();
            let ghost shown = bends@;
            assert(all =~= seq![note_on_event(note@, tpm), note_off_event(note@, tpm)] + bend_events(
                note@,
                tpm,
                shown,
                n as int,
            ));
            assert(events@ =~= base + narrowed(
                seq![note_on_event(note@, tpm), note_off_event(note@, tpm)] + bend_events(note@, tpm, shown, 0),
            ));
            assert(span < 0x2000_0000_0000_0000) by {
                assert(span / 264_600_000 <= length);
            }
            let mut i: usize = 0;
            while i < n
                invariant
                    i <= n,
                    n == bends@.len(),
                    shown == bends@,
                    note@.well_formed(),
                    tpm == ticks_per_minute as int,
                    per_minute == 264_600_000,
                    span == note.duration * ticks_per_minute,
                    span < 0x2000_0000_0000_0000,
                    start == start_tick(note@, tpm),
                    start <= u32::MAX,
                    all == note_events(note@, tpm),
                    all == seq![note_on_event(note@, tpm), note_off_event(note@, tpm)] + bend_events(
                        note@,
                        tpm,
                        shown,
                        n as int,
                    ),
                    all[0].tick <= u32::MAX,
                    all[1].tick <= u32::MAX,
                    0 <= all[0].tick,
                    0 <= all[1].tick,
                    forall|j: int| 0 <= j < i ==> 0 <= (#[trigger] bend_tick(note@, tpm, j, n as int)) <= u32::MAX,
                    events@ == base + narrowed(
                        seq![note_on_event(note@, tpm), note_off_event(note@, tpm)] + bend_events(
                            note@,
                            tpm,
                            shown,
                            i as int,
                        ),
                    ),
                decreases n - i,
            {
                assert(i * span <= 0xFFFF_FFFF_FFFF_FFFF * 0x2000_0000_0000_0000) by (nonlinear_arith)
                    requires
                        i <= 0xFFFF_FFFF_FFFF_FFFF,
                        span < 0x2000_0000_0000_0000,
                ;
                assert(n * per_minute <= 0xFFFF_FFFF_FFFF_FFFF * 264_600_000) by (nonlinear_arith)
                    requires
                        n <= 0xFFFF_FFFF_FFFF_FFFF,
                        per_minute == 264_600_000,
                ;
                assert(n * per_minute > 0) by (nonlinear_arith)
                    requires
                        n > 0,
                        per_minute == 264_600_000,
                ;
                let offset: u128 = rounded_quotient((i as u128) * span, (n as u128) * per_minute);
                let nudge: u128 = if i == 0 {
                    1
                } else {
                    0
                };
                let tick: u128 = start + offset + nudge;
                assert(tick == bend_tick(note@, tpm, i as int, n as int));
                if tick > u32::MAX as u128 {
                    assert(all[2 + i].tick == bend_tick(note@, tpm, i as int, n as int));
                    assert(!ticks_fit(all));
                    return false;
                }
                let ghost before = events@;
                events.push(MidiEvent { tick: tick as u32, kind: MidiEventKind::PitchBend { bend: bend_value_of(bends[i]) } });
                assert(events@ =~= base + narrowed(
                    seq![note_on_event(note@, tpm), note_off_event(note@, tpm)] + bend_events(
                        note@,
                        tpm,
                        shown,
                        i + 1,
                    ),
                ));
                i += 1;
            }
            assert forall|k: int| 0 <= k < all.len() implies 0 <= (#[trigger] all[k]).tick <= u32::MAX by {
                if k >= 2 {
                    assert(all[k].tick == bend_tick(note@, tpm, k - 2, n as int));
                }
            }
            true
        },
        None => {
            assert(all =~= seq![note_on_event(note@, tpm), note_off_event(note@, tpm)]);
            assert(events@ =~= base + narrowed(all));
            true
        },
    }
}

/// The events of the notes in the order in which they enter the track.
pub open spec fn ordered_events(notes: Seq<TimeNote>, tpm: int) -> Seq<MidiEvent> {
    release_first(stable_sort(narrowed(timed_events(notes, tpm))), 0)
}

/// What `generate_ordered_midi_events` returns: an error for a tick rate of
/// 0 and for ticks that do not fit 32 bits; the delta-stamped events of
/// the track otherwise.
pub open spec fn ordered_events_result(notes: Seq<TimeNote>, tpm: int) -> Result<Seq<DeltaEvent>, PipelineError> {
    if tpm == 0 {
        Err(PipelineError::Config)
    } else if !ticks_fit(timed_events(notes, tpm)) {
        Err(PipelineError::TimeRange)
    } else {
        Ok(delta_encoded(ordered_events(notes, tpm)))
    }
}

/// The events of well-formed notes fit their MIDI fields.
pub proof fn lemma_note_events_fit_fields(note: TimeNote, tpm: int)
    requires
        note.well_formed(),
    ensures
        all_fit_fields(narrowed(note_events(note, tpm))),
{
    let all = note_events(note, tpm);
    assert(0 <= velocity(note.amplitude) <= 127);
    assert forall|k: int| 0 <= k < all.len() implies fits_fields((#[trigger] narrowed(all)[k]).kind) by {
        if k == 0 {
            assert(all[0] == note_on_event(note, tpm));
        } else if k == 1 {
            assert(all[1] == note_off_event(note, tpm));
        } else {
            let bends = note.pitch_bends->Some_0;
            assert(all[k] == bend_events(note, tpm, bends, bends.len() as int)[k - 2]);
        }
    }
}

/// Turns notes into the events of a MIDI track at `ticks_per_minute` ticks
/// per minute.
///
/// Every note gives an event that strikes its key at its start tick, one
/// that releases it, and one pitch-bend event for each of its bends. The
/// events are put in the order of their ticks; events of one tick stay in
/// the order of their notes, except that a release that directly follows
/// a strike on the same tick goes first. Each event is then stamped with
/// the ticks that separate it from the event before it.
pub fn generate_ordered_midi_events(note_events: Vec<NoteEventTime>, ticks_per_minute: u64) -> (result: Result<
    Vec<DeltaEvent>,
    PipelineError,
>)
    requires
        all_well_formed(time_note_views(note_events@)),
    ensures
        match result {
            Ok(events) => {
                &&& ordered_events_result(time_note_views(note_events@), ticks_per_minute as int) == Ok::<
                    Seq<DeltaEvent>,
                    PipelineError,
                >(events@)
                &&& forall|k: int| 0 <= k < events@.len() ==> fits_fields((#[trigger] events@[k]).kind)
            },
            Err(e) => ordered_events_result(time_note_views(note_events@), ticks_per_minute as int) == Err::<
                Seq<DeltaEvent>,
                PipelineError,
            >(e),
        },
{
    if ticks_per_minute == 0 {
        return Err(PipelineError::Config);
    }
    let ghost notes = time_note_views(note_events@);
    let ghost tpm = ticks_per_minute as int;
    let ghost whole = timed_events(notes, tpm);
    let mut track_events_absolute: Vec<MidiEvent> = Vec::new();
    let mut k: usize = 0;
    assert(track_events_absolute@ =~= narrowed(timed_events_upto(notes, tpm, 0)));
    while k < note_events.len()
        invariant
            k <= note_events@.len(),
            ticks_per_minute > 0,
            notes == time_note_views(note_events@),
            tpm == ticks_per_minute as int,
            whole == timed_events(notes, tpm),
            all_well_formed(notes),
            ticks_fit(timed_events_upto(notes, tpm, k as int)),
            all_fit_fields(track_events_absolute@),
            track_events_absolute@ == narrowed(timed_events_upto(notes, tpm, k as int)),
        decreases note_events.len() - k,
    {
        let ghost before = timed_events_upto(notes, tpm, k as int);
        let ghost these = crate::midi::note_events(notes[k as int], tpm);
        assert(notes[k as int] == note_events@[k as int]@);
        assert(notes[k as int].well_formed());
        assert(timed_events_upto(notes, tpm, k + 1) == before + these);
        let ghost held = track_events_absolute@;
        let fits: bool = schedule_note(&mut track_events_absolute, &note_events[k], ticks_per_minute);
        if !fits {
            proof {
                let j = choose|j: int| 0 <= j < these.len() && !(0 <= (#[trigger] these[j]).tick <= u32::MAX);
                lemma_timed_events_prefix(notes, tpm, k + 1, notes.len() as int);
                assert(timed_events_upto(notes, tpm, k + 1)[before.len() + j] == these[j]);
                assert(whole[before.len() + j] == these[j]);
            }
            return Err(PipelineError::TimeRange);
        }
        proof {
            lemma_note_events_fit_fields(notes[k as int], tpm);
            assert(track_events_absolute@ =~= narrowed(before + these));
            assert forall|q: int| 0 <= q < (before + these).len() implies 0 <= (#[trigger] (before + these)[q]).tick
                <= u32::MAX by {
                if q < before.len() {
                    assert((before + these)[q] == before[q]);
                } else {
                    assert((before + these)[q] == these[q - before.len()]);
                }
            }
            assert forall|q: int| 0 <= q < track_events_absolute@.len() implies fits_fields(
                (#[trigger] track_events_absolute@[q]).kind,
            ) by {
                if q < held.len() {
                    assert(track_events_absolute@[q] == held[q]);
                } else {
                    assert(track_events_absolute@[q] == narrowed(these)[q - held.len()]);
                }
            }
        }
        k += 1;
    }
    let sorted: Vec<MidiEvent> = sort_by_tick(&track_events_absolute);
    proof {
        lemma_stable_sort(track_events_absolute@);
        lemma_release_first(sorted@);
    }
    let ordered: Vec<MidiEvent> = put_releases_first(&sorted);
    let track_events: Vec<DeltaEvent> = encode_deltas(&ordered);
    assert forall|q: int| 0 <= q < track_events@.len() implies fits_fields((#[trigger] track_events@[q]).kind) by {
        assert(track_events@[q].kind == ordered@[q].kind);
    }
    Ok(track_events)
}

/// Every delta time of `events` fits a track event.
pub open spec fn deltas_fit(events: Seq<DeltaEvent>) -> bool {
    forall|k: int| 0 <= k < events.len() ==> (#[trigger] events[k]).delta <= MAX_DELTA
}

/// The events of a track: the tempo at delta 0, then `events`.
pub open spec fn track_of(micros_per_beat: u32, events: Seq<DeltaEvent>) -> Seq<DeltaEvent> {
    seq![DeltaEvent { delta: 0, kind: MidiEventKind::Tempo { micros_per_beat } }] + events
}

/// What becomes of the writer's answer: its bytes, or an error where it
/// refused the track.
pub open spec fn encoded_file(encoding: Option<Seq<u8>>) -> Result<Seq<u8>, PipelineError> {
    match encoding {
        Some(bytes) => Ok(bytes),
        None => Err(PipelineError::Encoding),
    }
}

/// What `generate_midi_file_data` returns: an error for a tempo of 0 beats
/// per minute or one too slow for a tempo event, for ticks that do not fit
/// 32 bits and for delta times that do not fit a track event; otherwise
/// what the writer makes of the track.
pub open spec fn midi_file_result(notes: Seq<TimeNote>, beats_per_minute: u32) -> Result<Seq<u8>, PipelineError> {
    if beats_per_minute == 0 || MICROS_PER_MINUTE / beats_per_minute > MAX_TEMPO {
        Err(PipelineError::Config)
    } else {
        match ordered_events_result(notes, TICKS_PER_BEAT * beats_per_minute) {
            Err(e) => Err(e),
            Ok(events) => if !deltas_fit(events) {
                Err(PipelineError::TimeRange)
            } else {
                encoded_file(
                    smf_encoding(TICKS_PER_BEAT, track_of((MICROS_PER_MINUTE / beats_per_minute) as u32, events)),
                )
            },
        }
    }
}

/// Returns the bytes that the writer made, or the error that stands for
/// its refusal.
pub fn finish_midi_file(encoded: Option<Vec<u8>>) -> (result: Result<Vec<u8>, PipelineError>)
    ensures
        match result {
            Ok(bytes) => encoded matches Some(written) && written@ == bytes@,
            Err(e) => encoded is None && e == PipelineError::Encoding,
        },
{
    match encoded {
        Some(bytes) => Ok(bytes),
        None => Err(PipelineError::Encoding),
    }
}

fn copy_notes(notes: &Vec<NoteEventTime>) -> (copy: Vec<NoteEventTime>)
    ensures
        time_note_views(copy@) == time_note_views(notes@),
{
    let mut copy: Vec<NoteEventTime> = Vec::new();
    let mut k: usize = 0;
    while k < notes.len()
        invariant
            k <= notes@.len(),
            time_note_views(copy@) == time_note_views(notes@).take(k as int),
        decreases notes.len() - k,
    {
        let ghost before = time_note_views(copy@);
        let note: NoteEventTime = notes[k].clone();
        copy.push(note);
        assert(time_note_views(copy@) =~= before.push(notes@[k as int]@));
        assert(time_note_views(copy@) =~= time_note_views(notes@).take(k + 1));
        k += 1;
    }
    assert(time_note_views(notes@).take(notes@.len() as int) =~= time_note_views(notes@));
    copy
}

/// Encodes notes as a MIDI file of one track at `beats_per_minute`.
///
/// The header declares the format `SingleTrack` and metrical timing at
/// `TICKS_PER_BEAT` ticks per beat. The track begins with the tempo, in
/// microseconds per beat, at delta 0; the events of the notes follow in
/// the order that `generate_ordered_midi_events` gives them.
pub fn generate_midi_file_data(notes: &Vec<NoteEventTime>, beats_per_minute: u32) -> (result: Result<
    Vec<u8>,
    PipelineError,
>)
    requires
        all_well_formed(time_note_views(notes@)),
    ensures
        match result {
            Ok(bytes) => midi_file_result(time_note_views(notes@), beats_per_minute) == Ok::<Seq<u8>, PipelineError>(
                bytes@,
            ),
            Err(e) => midi_file_result(time_note_views(notes@), beats_per_minute) == Err::<Seq<u8>, PipelineError>(e),
        },
{
    if beats_per_minute == 0 {
        return Err(PipelineError::Config);
    }
    let tempo: u32 = MICROS_PER_MINUTE / beats_per_minute;
    if tempo > MAX_TEMPO {
        return Err(PipelineError::Config);
    }
    let ticks_per_minute: u64 = (TICKS_PER_BEAT as u64) * (beats_per_minute as u64);
    let track_events: Vec<DeltaEvent> = match generate_ordered_midi_events(copy_notes(notes), ticks_per_minute) {
        Ok(events) => events,
        Err(e) => {
            return Err(e);
        },
    };
    let ghost wanted = track_of(tempo, track_events@);
    let mut track: Vec<TrackEvent<'static>> = Vec::new();
    track.push(tempo_track_event(0, tempo));
    assert(track_views(track@) =~= wanted.take(1));
    let mut k: usize = 0;
    while k < track_events.len()
        invariant
            k <= track_events@.len(),
            beats_per_minute != 0,
            tempo == MICROS_PER_MINUTE / beats_per_minute,
            tempo <= MAX_TEMPO,
            ticks_per_minute == TICKS_PER_BEAT * beats_per_minute,
            ordered_events_result(time_note_views(notes@), ticks_per_minute as int) == Ok::<
                Seq<DeltaEvent>,
                PipelineError,
            >(track_events@),
            wanted == track_of(tempo, track_events@),
            forall|q: int| 0 <= q < track_events@.len() ==> fits_fields((#[trigger] track_events@[q]).kind),
            forall|q: int| 0 <= q < k ==> (#[trigger] track_events@[q]).delta <= MAX_DELTA,
            track_views(track@) == wanted.take(k + 1),
        decreases track_events.len() - k,
    {
        let event: DeltaEvent = track_events[k];
        if event.delta > MAX_DELTA {
            assert(track_events@[k as int].delta > MAX_DELTA);
            return Err(PipelineError::TimeRange);
        }
        assert(fits_fields(track_events@[k as int].kind));
        let ghost before = track_views(track@);
        let converted: TrackEvent<'static> = match event.kind {
            MidiEventKind::NoteOn { key, vel } => note_on_track_event(event.delta, key, vel),
            MidiEventKind::NoteOff { key, vel } => note_off_track_event(event.delta, key, vel),
            MidiEventKind::PitchBend { bend } => pitch_bend_track_event(event.delta, bend),
            MidiEventKind::Tempo { micros_per_beat } => tempo_track_event(event.delta, micros_per_beat),
        };
        track.push(converted);
        assert(wanted[k + 1] == event);
        assert(track_views(track@) =~= before.push(track_event_view(converted)));
        k += 1;
    }
    assert(wanted.take(track_events@.len() as int + 1) =~= wanted);
    finish_midi_file(write_single_track(TICKS_PER_BEAT, track))
}

/// Delta round trip: adding up the delta times of the track from its start
/// up to any event gives back the tick that stands at the place of that
/// event in the sorted sequence of the events.
pub proof fn lemma_delta_round_trip(notes: Seq<TimeNote>, tpm: int, j: int)
    requires
        0 <= j < timed_events(notes, tpm).len(),
    ensures
        delta_encoded(ordered_events(notes, tpm)).len() == timed_events(notes, tpm).len(),
        tick_after(delta_encoded(ordered_events(notes, tpm)), j + 1) == stable_sort(
            narrowed(timed_events(notes, tpm)),
        )[j].tick,
{
    let sorted = stable_sort(narrowed(timed_events(notes, tpm)));
    lemma_stable_sort(narrowed(timed_events(notes, tpm)));
    lemma_release_first(sorted);
    lemma_release_first_ticks(sorted, 0);
    lemma_delta_sums(ordered_events(notes, tpm), j);
    assert(ordered_events(notes, tpm)[j].tick == sorted[0 + j].tick);
}

/// Tick ordering: in the track made of `notes`, no strike of a key stands
/// before a release of the same key on the same tick, provided that, in
/// the sorted events, no other event stands between such a strike and
/// such a release. (A third event between them keeps the two from
/// changing places, as `lemma_release_first_keeps_distant` shows.)
pub proof fn lemma_releases_precede_strikes(notes: Seq<TimeNote>, tpm: int)
    requires
        releases_follow_directly(stable_sort(narrowed(timed_events(notes, tpm))), 0),
    ensures
        releases_precede_strikes(ordered_events(notes, tpm)),
{
    lemma_release_first_order(stable_sort(narrowed(timed_events(notes, tpm))), 0);
}

/// Determinism of the serializer: what `generate_ordered_midi_events` and
/// `generate_midi_file_data` return is fixed by the notes and the tempo, so
/// two runs on equal notes and tempo end alike, byte for byte.
pub proof fn lemma_serializer_deterministic(first: Seq<TimeNote>, second: Seq<TimeNote>, beats_per_minute: u32)
    requires
        first =~= second,
    ensures
        ordered_events_result(first, TICKS_PER_BEAT * beats_per_minute) == ordered_events_result(
            second,
            TICKS_PER_BEAT * beats_per_minute,
        ),
        midi_file_result(first, beats_per_minute) == midi_file_result(second, beats_per_minute),
{
}

} // verus!
