//! The order of the events of a track.
//!
//! Events are sorted by their ticks, and events of one tick keep the order
//! in which they were made, with one exception: a release that directly
//! follows a strike on the same tick goes first, so that no key is struck
//! again before it is released.

use vstd::prelude::*;
use crate::constants::PITCH_BEND_MAX;
use crate::midi::{DeltaEvent, MidiEvent, MidiEventKind, MAX_TEMPO};

verus! {

/// The place at which an event of tick `tick` enters `s`: behind the last
/// event whose tick does not exceed `tick`.
pub open spec fn insert_position(s: Seq<MidiEvent>, tick: u32) -> int
    decreases s.len(),
{
    if s.len() == 0 {
        0
    } else if s.last().tick <= tick {
        s.len() as int
    } else {
        insert_position(s.drop_last(), tick)
    }
}

/// The events of `s` in the order of their ticks, events of one tick in
/// the order in which they stand in `s`.
pub open spec fn stable_sort(s: Seq<MidiEvent>) -> Seq<MidiEvent>
    decreases s.len(),
{
    if s.len() == 0 {
        s
    } else {
        let sorted = stable_sort(s.drop_last());
        sorted.insert(insert_position(sorted, s.last().tick), s.last())
    }
}

/// The ticks of `s` never decrease.
pub open spec fn ordered_by_tick(s: Seq<MidiEvent>) -> bool {
    forall|i: int, j: int| 0 <= i <= j < s.len() ==> s[i].tick <= s[j].tick
}

/// The events of `a` and of `b` in one sequence, taken from the back: the
/// event of the greater tick goes last, and of two events of one tick that
/// of `b`. Of two sequences in the order of their ticks this is the stable
/// merge.
pub open spec fn merged_by_tick(a: Seq<MidiEvent>, b: Seq<MidiEvent>) -> Seq<MidiEvent>
    decreases a.len() + b.len(),
{
    if b.len() == 0 {
        a
    } else if a.len() == 0 {
        b
    } else if a.last().tick > b.last().tick {
        merged_by_tick(a.drop_last(), b).push(a.last())
    } else {
        merged_by_tick(a, b.drop_last()).push(b.last())
    }
}

/// The sequence `s` with `x` put in at its place.
pub open spec fn placed(s: Seq<MidiEvent>, x: MidiEvent) -> Seq<MidiEvent> {
    s.insert(insert_position(s, x.tick), x)
}

/// An event is placed behind the last event, or else among the events
/// before the last.
pub proof fn lemma_placed(s: Seq<MidiEvent>, x: MidiEvent)
    ensures
        s.len() == 0 ==> placed(s, x) == seq![x],
        s.len() > 0 && s.last().tick <= x.tick ==> placed(s, x) == s.push(x),
        s.len() > 0 && s.last().tick > x.tick ==> placed(s, x) == placed(s.drop_last(), x).push(s.last()),
        placed(s, x).len() == s.len() + 1,
{
    lemma_insert_position(s, x.tick);
    if s.len() == 0 {
        assert(placed(s, x) =~= seq![x]);
    } else if s.last().tick <= x.tick {
        assert(placed(s, x) =~= s.push(x));
    } else {
        lemma_insert_position(s.drop_last(), x.tick);
        assert(placed(s, x) =~= placed(s.drop_last(), x).push(s.last()));
    }
}

/// Placing an event in a merged sequence gives what merging gives once the
/// event is placed in the second of the two.
pub proof fn lemma_merged_placed(a: Seq<MidiEvent>, b: Seq<MidiEvent>, x: MidiEvent)
    ensures
        placed(merged_by_tick(a, b), x) == merged_by_tick(a, placed(b, x)),
    decreases a.len() + b.len(),
{
    let m = merged_by_tick(a, b);
    let bx = placed(b, x);
    lemma_placed(b, x);
    lemma_placed(m, x);
    if b.len() == 0 || b.last().tick <= x.tick {
        // `x` is the last of the second sequence.
        assert(bx =~= b.push(x));
        assert(bx.last() == x);
        assert(bx.drop_last() =~= b);
        if a.len() == 0 {
            assert(m =~= b);
        } else if a.last().tick > x.tick {
            lemma_merged_placed(a.drop_last(), b, x);
            assert(m =~= merged_by_tick(a.drop_last(), b).push(a.last())) by {
                if b.len() == 0 {
                    assert(merged_by_tick(a.drop_last(), b) =~= a.drop_last());
                    assert(a =~= a.drop_last().push(a.last()));
                }
            }
            lemma_placed(merged_by_tick(a.drop_last(), b).push(a.last()), x);
            assert(merged_by_tick(a.drop_last(), b).push(a.last()).drop_last() =~= merged_by_tick(a.drop_last(), b));
        } else {
            assert(merged_by_tick(a, bx) == merged_by_tick(a, b).push(x));
            if m.len() > 0 {
                lemma_merged_last(a, b);
            }
        }
    } else {
        assert(bx =~= placed(b.drop_last(), x).push(b.last()));
        assert(bx.last() == b.last());
        assert(bx.drop_last() =~= placed(b.drop_last(), x));
        if a.len() > 0 && a.last().tick > b.last().tick {
            lemma_merged_placed(a.drop_last(), b, x);
            let inner = merged_by_tick(a.drop_last(), b);
            assert(m == inner.push(a.last()));
            assert(inner.push(a.last()).drop_last() =~= inner);
            lemma_placed(inner.push(a.last()), x);
        } else {
            lemma_merged_placed(a, b.drop_last(), x);
            let inner = merged_by_tick(a, b.drop_last());
            assert(m == inner.push(b.last())) by {
                if a.len() == 0 {
                    assert(inner =~= b.drop_last());
                    assert(b =~= b.drop_last().push(b.last()));
                }
            }
            assert(inner.push(b.last()).drop_last() =~= inner);
            lemma_placed(inner.push(b.last()), x);
            assert(merged_by_tick(a, bx) == merged_by_tick(a, placed(b.drop_last(), x)).push(b.last())) by {
                if a.len() == 0 {
                    assert(merged_by_tick(a, placed(b.drop_last(), x)) =~= placed(b.drop_last(), x));
                }
            }
        }
    }
}

/// The last event of a merged sequence is the last of one of the two.
pub proof fn lemma_merged_last(a: Seq<MidiEvent>, b: Seq<MidiEvent>)
    requires
        a.len() + b.len() > 0,
    ensures
        merged_by_tick(a, b).len() == a.len() + b.len(),
        (a.len() > 0 && merged_by_tick(a, b).last() == a.last()) || (b.len() > 0 && merged_by_tick(a, b).last()
            == b.last()),
    decreases a.len() + b.len(),
{
    if b.len() > 0 && a.len() > 0 {
        if a.last().tick > b.last().tick {
            if a.len() + b.len() > 1 {
                lemma_merged_last(a.drop_last(), b);
            }
        } else {
            if a.len() + b.len() > 1 {
                lemma_merged_last(a, b.drop_last());
            }
        }
    }
}

/// Sorting two sequences and merging them sorts the two put together.
pub proof fn lemma_stable_sort_of_two(a: Seq<MidiEvent>, b: Seq<MidiEvent>)
    ensures
        stable_sort(a + b) == merged_by_tick(stable_sort(a), stable_sort(b)),
    decreases b.len(),
{
    if b.len() == 0 {
        assert(a + b =~= a);
    } else {
        let x = b.last();
        lemma_stable_sort_of_two(a, b.drop_last());
        assert((a + b).drop_last() =~= a + b.drop_last());
        assert((a + b).last() == x);
        lemma_merged_placed(stable_sort(a), stable_sort(b.drop_last()), x);
    }
}

fn merge_by_tick(a: &Vec<MidiEvent>, b: &Vec<MidiEvent>) -> (out: Vec<MidiEvent>)
    requires
        a@.len() + b@.len() <= usize::MAX,
    ensures
        out@ == merged_by_tick(a@, b@),
{
    let n: usize = a.len() + b.len();
    let mut out: Vec<MidiEvent> = Vec::new();
    let blank = MidiEvent { tick: 0, kind: MidiEventKind::Tempo { micros_per_beat: 0 } };
    let mut filled: usize = 0;
    while filled < n
        invariant
            filled <= n,
            out@.len() == filled,
        decreases n - filled,
    {
        out.push(blank);
        filled += 1;
    }
    // The merged events are written from the back.
    let mut i: usize = a.len();
    let mut j: usize = b.len();
    assert(a@.take(i as int) =~= a@);
    assert(b@.take(j as int) =~= b@);
    assert(merged_by_tick(a@, b@) + out@.skip(n as int) =~= merged_by_tick(a@, b@));
    while i + j > 0
        invariant
            i <= a@.len(),
            j <= b@.len(),
            out@.len() == n,
            n == a@.len() + b@.len(),
            merged_by_tick(a@, b@) == merged_by_tick(a@.take(i as int), b@.take(j as int)) + out@.skip(i + j),
        decreases i + j,
    {
        let ghost left = a@.take(i as int);
        let ghost right = b@.take(j as int);
        let ghost tail = out@.skip(i + j);
        let from_left: bool = j == 0 || (i > 0 && a[i - 1].tick > b[j - 1].tick);
        if from_left {
            let event: MidiEvent = a[i - 1];
            assert(left.last() == event);
            assert(left.drop_last() =~= a@.take(i - 1));
            assert(merged_by_tick(left, right) =~= merged_by_tick(a@.take(i - 1), right).push(event)) by {
                if j == 0 {
                    assert(merged_by_tick(a@.take(i - 1), right) =~= a@.take(i - 1));
                }
            }
            i -= 1;
            out.set(i + j, event);
            assert(out@.skip(i + j) =~= seq![event] + tail);
        } else {
            let event: MidiEvent = b[j - 1];
            assert(right.last() == event);
            assert(right.drop_last() =~= b@.take(j - 1));
            assert(merged_by_tick(left, right) =~= merged_by_tick(left, b@.take(j - 1)).push(event)) by {
                if i == 0 {
                    assert(merged_by_tick(left, b@.take(j - 1)) =~= b@.take(j - 1));
                }
            }
            j -= 1;
            out.set(i + j, event);
            assert(out@.skip(i + j) =~= seq![event] + tail);
        }
    }
    assert(a@.take(0) =~= Seq::<MidiEvent>::empty());
    assert(out@.skip(0) =~= out@);
    out
}

fn sort_range(events: &Vec<MidiEvent>, low: usize, high: usize) -> (sorted: Vec<MidiEvent>)
    requires
        low <= high <= events@.len(),
    ensures
        sorted@ == stable_sort(events@.subrange(low as int, high as int)),
        sorted@.len() == high - low,
    decreases high - low,
{
    let ghost part = events@.subrange(low as int, high as int);
    if high - low == 0 {
        Vec::new()
    } else if high - low == 1 {
        let mut one: Vec<MidiEvent> = Vec::new();
        one.push(events[low]);
        proof {
            lemma_placed(stable_sort(part.drop_last()), part.last());
            assert(one@ =~= stable_sort(part));
        }
        one
    } else {
        let mid: usize = low + (high - low) / 2;
        let left: Vec<MidiEvent> = sort_range(events, low, mid);
        let right: Vec<MidiEvent> = sort_range(events, mid, high);
        proof {
            let first = events@.subrange(low as int, mid as int);
            let second = events@.subrange(mid as int, high as int);
            assert(part =~= first + second);
            lemma_stable_sort_of_two(first, second);
        }
        let sorted: Vec<MidiEvent> = merge_by_tick(&left, &right);
        proof {
            lemma_stable_sort(part);
        }
        sorted
    }
}

/// Sorts the events by their ticks, by halving and merging.
pub(crate) fn sort_by_tick(events: &Vec<MidiEvent>) -> (sorted: Vec<MidiEvent>)
    ensures
        sorted@ == stable_sort(events@),
{
    assert(events@.subrange(0, events@.len() as int) =~= events@);
    sort_range(events, 0, events.len())
}

impl MidiEventKind {
    /// The event strikes a key.
    pub open spec fn is_note_on(self) -> bool {
        self is NoteOn
    }

    /// The event releases a key.
    pub open spec fn is_note_off(self) -> bool {
        self is NoteOff
    }
}

/// At place `i` of `s` a key is struck, and the event behind it releases a
/// key on the same tick.
pub open spec fn strikes_before_release(s: Seq<MidiEvent>, i: int) -> bool {
    &&& 0 <= i
    &&& i + 1 < s.len()
    &&& s[i].kind.is_note_on()
    &&& s[i + 1].kind.is_note_off()
    &&& s[i + 1].tick == s[i].tick
}

/// The events of `s` from place `i` on, where every release that follows a
/// strike on the same tick has changed places with it. The events are
/// taken in pairs from the front, so no event moves by more than one place.
pub open spec fn release_first(s: Seq<MidiEvent>, i: int) -> Seq<MidiEvent>
    decreases s.len() - i,
{
    if i >= s.len() || i < 0 {
        Seq::empty()
    } else if strikes_before_release(s, i) {
        seq![s[i + 1], s[i]] + release_first(s, i + 2)
    } else {
        seq![s[i]] + release_first(s, i + 1)
    }
}

/// The events of `s` stamped with the ticks that separate each from the
/// one before it; the first event keeps its tick.
pub open spec fn delta_encoded(s: Seq<MidiEvent>) -> Seq<DeltaEvent> {
    Seq::new(
        s.len(),
        |j: int|
            DeltaEvent {
                delta: if j == 0 {
                    s[j].tick
                } else {
                    (s[j].tick - s[j - 1].tick) as u32
                },
                kind: s[j].kind,
            },
    )
}

/// `release_first` keeps the number of events, and the tick at every place.
pub proof fn lemma_release_first_ticks(s: Seq<MidiEvent>, i: int)
    requires
        0 <= i <= s.len(),
    ensures
        release_first(s, i).len() == s.len() - i,
        forall|j: int| 0 <= j < s.len() - i ==> (#[trigger] release_first(s, i)[j]).tick == s[i + j].tick,
    decreases s.len() - i,
{
    if i < s.len() {
        if strikes_before_release(s, i) {
            lemma_release_first_ticks(s, i + 2);
            let rest = release_first(s, i + 2);
            assert forall|j: int| 0 <= j < s.len() - i implies (#[trigger] release_first(s, i)[j]).tick == s[i + j].tick by {
                if j >= 2 {
                    assert(release_first(s, i)[j] == rest[j - 2]);
                }
            }
        } else {
            lemma_release_first_ticks(s, i + 1);
            let rest = release_first(s, i + 1);
            assert forall|j: int| 0 <= j < s.len() - i implies (#[trigger] release_first(s, i)[j]).tick == s[i + j].tick by {
                if j >= 1 {
                    assert(release_first(s, i)[j] == rest[j - 1]);
                }
            }
        }
    }
}

pub(crate) fn put_releases_first(sorted: &Vec<MidiEvent>) -> (out: Vec<MidiEvent>)
    ensures
        out@ == release_first(sorted@, 0),
{
    let mut out: Vec<MidiEvent> = Vec::new();
    let mut i: usize = 0;
    while i < sorted.len()
        invariant
            i <= sorted@.len(),
            out@ + release_first(sorted@, i as int) == release_first(sorted@, 0),
        decreases sorted.len() - i,
    {
        let ghost before = out@;
        let ghost rest = release_first(sorted@, i as int);
        let event: MidiEvent = sorted[i];
        let struck: bool = match event.kind {
            MidiEventKind::NoteOn { .. } => true,
            _ => false,
        };
        let mut swapped: bool = false;
        if struck && i + 1 < sorted.len() {
            let next: MidiEvent = sorted[i + 1];
            let released: bool = match next.kind {
                MidiEventKind::NoteOff { .. } => true,
                _ => false,
            };
            if released && next.tick == event.tick {
                swapped = true;
                out.push(next);
            }
        }
        out.push(event);
        if swapped {
            assert(strikes_before_release(sorted@, i as int));
            assert(out@ + release_first(sorted@, i + 2) =~= before + rest);
            i += 2;
        } else {
            assert(!strikes_before_release(sorted@, i as int));
            assert(out@ + release_first(sorted@, i + 1) =~= before + rest);
            i += 1;
        }
    }
    assert(out@ + release_first(sorted@, i as int) =~= out@);
    out
}

pub(crate) fn encode_deltas(events: &Vec<MidiEvent>) -> (out: Vec<DeltaEvent>)
    requires
        ordered_by_tick(events@),
    ensures
        out@ == delta_encoded(events@),
{
    let mut out: Vec<DeltaEvent> = Vec::new();
    let mut j: usize = 0;
    while j < events.len()
        invariant
            j <= events@.len(),
            ordered_by_tick(events@),
            out@ == delta_encoded(events@).take(j as int),
        decreases events.len() - j,
    {
        let delta: u32 = if j == 0 {
            events[j].tick
        } else {
            events[j].tick - events[j - 1].tick
        };
        out.push(DeltaEvent { delta, kind: events[j].kind });
        assert(out@ =~= delta_encoded(events@).take(j + 1));
        j += 1;
    }
    assert(delta_encoded(events@).take(events@.len() as int) =~= delta_encoded(events@));
    out
}

/// The key, the velocity or the wheel position of an event fits its MIDI
/// field.
pub open spec fn fits_fields(kind: MidiEventKind) -> bool {
    match kind {
        MidiEventKind::NoteOn { key, vel } => key <= 127 && vel <= 127,
        MidiEventKind::NoteOff { key, vel } => key <= 127 && vel <= 127,
        MidiEventKind::PitchBend { bend } => bend <= PITCH_BEND_MAX,
        MidiEventKind::Tempo { micros_per_beat } => micros_per_beat <= MAX_TEMPO,
    }
}

/// Every event of `s` fits its MIDI fields.
pub open spec fn all_fit_fields(s: Seq<MidiEvent>) -> bool {
    forall|k: int| 0 <= k < s.len() ==> fits_fields((#[trigger] s[k]).kind)
}

/// The place at which an event enters a sequence lies behind every event
/// of a greater tick; in an ordered sequence it also lies before none of a
/// smaller or equal tick.
pub proof fn lemma_insert_position(s: Seq<MidiEvent>, tick: u32)
    ensures
        0 <= insert_position(s, tick) <= s.len(),
        forall|j: int| insert_position(s, tick) <= j < s.len() ==> (#[trigger] s[j]).tick > tick,
        ordered_by_tick(s) ==> forall|j: int| 0 <= j < insert_position(s, tick) ==> (#[trigger] s[j]).tick <= tick,
    decreases s.len(),
{
    if s.len() > 0 {
        if s.last().tick <= tick {
            if ordered_by_tick(s) {
                assert forall|j: int| 0 <= j < s.len() implies (#[trigger] s[j]).tick <= tick by {
                    assert(s[j].tick <= s[s.len() - 1].tick);
                }
            }
        } else {
            lemma_insert_position(s.drop_last(), tick);
            let p = insert_position(s.drop_last(), tick);
            assert forall|j: int| p <= j < s.len() implies (#[trigger] s[j]).tick > tick by {
                if j < s.len() - 1 {
                    assert(s.drop_last()[j].tick > tick);
                }
            }
            if ordered_by_tick(s) {
                assert(ordered_by_tick(s.drop_last())) by {
                    assert forall|i: int, j: int| 0 <= i <= j < s.drop_last().len() implies s.drop_last()[i].tick
                        <= s.drop_last()[j].tick by {
                        assert(s[i].tick <= s[j].tick);
                    }
                }
                assert forall|j: int| 0 <= j < p implies (#[trigger] s[j]).tick <= tick by {
                    assert(s.drop_last()[j].tick <= tick);
                }
            }
        }
    }
}

/// Sorting keeps the number of events and what fits their fields, and
/// leaves the ticks in order.
pub proof fn lemma_stable_sort(s: Seq<MidiEvent>)
    ensures
        stable_sort(s).len() == s.len(),
        ordered_by_tick(stable_sort(s)),
        all_fit_fields(s) ==> all_fit_fields(stable_sort(s)),
        stable_sort(s).to_multiset() == s.to_multiset(),
    decreases s.len(),
{
    if s.len() > 0 {
        let head = s.drop_last();
        let x = s.last();
        lemma_stable_sort(head);
        let sorted = stable_sort(head);
        lemma_insert_position(sorted, x.tick);
        let p = insert_position(sorted, x.tick);
        let out = sorted.insert(p, x);
        assert(out == stable_sort(s));
        assert forall|i: int, j: int| 0 <= i <= j < out.len() implies out[i].tick <= out[j].tick by {
            if i < p {
                assert(out[i] == sorted[i]);
                if j < p {
                    assert(out[j] == sorted[j]);
                } else if j == p {
                } else {
                    assert(out[j] == sorted[j - 1]);
                    assert(sorted[i].tick <= sorted[j - 1].tick);
                }
            } else if i == p {
                if j > p {
                    assert(out[j] == sorted[j - 1]);
                }
            } else {
                assert(out[i] == sorted[i - 1]);
                assert(out[j] == sorted[j - 1]);
                assert(sorted[i - 1].tick <= sorted[j - 1].tick);
            }
        }
        if all_fit_fields(s) {
            assert(all_fit_fields(head)) by {
                assert forall|k: int| 0 <= k < head.len() implies fits_fields((#[trigger] head[k]).kind) by {
                    assert(head[k] == s[k]);
                }
            }
            assert forall|k: int| 0 <= k < out.len() implies fits_fields((#[trigger] out[k]).kind) by {
                if k < p {
                    assert(out[k] == sorted[k]);
                } else if k == p {
                    assert(out[k] == s[s.len() - 1]);
                } else {
                    assert(out[k] == sorted[k - 1]);
                }
            }
        }
        assert(out.to_multiset() == s.to_multiset()) by {
            vstd::seq_lib::to_multiset_insert(sorted, p, x);
            assert(s =~= head.push(x));
            vstd::seq_lib::to_multiset_build(head, x);
        }
    }
}

/// Holds of the events whose tick is `tick`.
pub open spec fn has_tick(tick: u32) -> spec_fn(MidiEvent) -> bool {
    |event: MidiEvent| event.tick == tick
}

/// The events of `s` whose tick is `tick`, in the order in which they stand
/// in `s`.
pub open spec fn at_tick(s: Seq<MidiEvent>, tick: u32) -> Seq<MidiEvent> {
    s.filter(has_tick(tick))
}

/// A sequence in which no event has the tick `tick` holds no event at that
/// tick.
pub proof fn lemma_none_at_tick(s: Seq<MidiEvent>, tick: u32)
    requires
        forall|j: int| 0 <= j < s.len() ==> (#[trigger] s[j]).tick != tick,
    ensures
        at_tick(s, tick) == Seq::<MidiEvent>::empty(),
    decreases s.len(),
{
    reveal(Seq::filter);
    if s.len() > 0 {
        assert forall|j: int| 0 <= j < s.drop_last().len() implies (#[trigger] s.drop_last()[j]).tick != tick by {
            assert(s[j].tick != tick);
        }
        lemma_none_at_tick(s.drop_last(), tick);
        assert(s[s.len() - 1].tick != tick);
    }
}

/// Sorting is stable: the events of one tick stand in the sorted sequence
/// in the order in which they stood before.
pub proof fn lemma_stable_sort_keeps_order(s: Seq<MidiEvent>, tick: u32)
    ensures
        at_tick(stable_sort(s), tick) == at_tick(s, tick),
    decreases s.len(),
{
    if s.len() > 0 {
        let head = s.drop_last();
        let x = s.last();
        lemma_stable_sort_keeps_order(head, tick);
        lemma_stable_sort(head);
        let sorted = stable_sort(head);
        lemma_insert_position(sorted, x.tick);
        let p = insert_position(sorted, x.tick);
        let front = sorted.take(p);
        let back = sorted.skip(p);
        let one = seq![x];
        assert(sorted =~= front + back);
        assert(sorted.insert(p, x) =~= front + one + back);
        assert(s =~= head + one);
        Seq::filter_distributes_over_add(front, back, has_tick(tick));
        Seq::filter_distributes_over_add(front, one, has_tick(tick));
        Seq::filter_distributes_over_add(front + one, back, has_tick(tick));
        Seq::filter_distributes_over_add(head, one, has_tick(tick));
        if x.tick == tick {
            assert forall|j: int| 0 <= j < back.len() implies (#[trigger] back[j]).tick != tick by {
                assert(back[j] == sorted[p + j]);
            }
            lemma_none_at_tick(back, tick);
            assert(at_tick(sorted, tick) =~= at_tick(front, tick));
            assert(at_tick(sorted.insert(p, x), tick) =~= at_tick(front, tick) + at_tick(one, tick));
        } else {
            assert forall|j: int| 0 <= j < one.len() implies (#[trigger] one[j]).tick != tick by {}
            lemma_none_at_tick(one, tick);
            assert(at_tick(sorted.insert(p, x), tick) =~= at_tick(front, tick) + at_tick(back, tick));
            assert(at_tick(s, tick) =~= at_tick(head, tick));
        }
    }
}

/// Every event of `release_first(s, i)` is an event of `s` from place `i` on.
pub proof fn lemma_release_first_members(s: Seq<MidiEvent>, i: int)
    requires
        0 <= i <= s.len(),
    ensures
        forall|a: int|
            0 <= a < release_first(s, i).len() ==> exists|q: int|
                i <= q < s.len() && s[q] == #[trigger] release_first(s, i)[a],
    decreases s.len() - i,
{
    if i < s.len() {
        let now = release_first(s, i);
        if strikes_before_release(s, i) {
            lemma_release_first_members(s, i + 2);
            let rest = release_first(s, i + 2);
            assert forall|a: int| 0 <= a < now.len() implies exists|q: int| i <= q < s.len() && s[q] == #[trigger] now[a] by {
                if a == 0 {
                    assert(s[i + 1] == now[a]);
                } else if a == 1 {
                    assert(s[i] == now[a]);
                } else {
                    assert(now[a] == rest[a - 2]);
                    let q = choose|q: int| i + 2 <= q < s.len() && s[q] == rest[a - 2];
                    assert(s[q] == now[a]);
                }
            }
        } else {
            lemma_release_first_members(s, i + 1);
            let rest = release_first(s, i + 1);
            assert forall|a: int| 0 <= a < now.len() implies exists|q: int| i <= q < s.len() && s[q] == #[trigger] now[a] by {
                if a == 0 {
                    assert(s[i] == now[a]);
                } else {
                    assert(now[a] == rest[a - 1]);
                    let q = choose|q: int| i + 1 <= q < s.len() && s[q] == rest[a - 1];
                    assert(s[q] == now[a]);
                }
            }
        }
    }
}

/// Letting releases go first keeps the ticks in order and keeps what fits
/// the fields of the events.
pub proof fn lemma_release_first(s: Seq<MidiEvent>)
    requires
        ordered_by_tick(s),
    ensures
        release_first(s, 0).len() == s.len(),
        ordered_by_tick(release_first(s, 0)),
        all_fit_fields(s) ==> all_fit_fields(release_first(s, 0)),
{
    lemma_release_first_ticks(s, 0);
    lemma_release_first_members(s, 0);
    let out = release_first(s, 0);
    assert forall|i: int, j: int| 0 <= i <= j < out.len() implies out[i].tick <= out[j].tick by {
        assert(out[i].tick == s[0 + i].tick);
        assert(out[j].tick == s[0 + j].tick);
    }
    if all_fit_fields(s) {
        assert forall|k: int| 0 <= k < out.len() implies fits_fields((#[trigger] out[k]).kind) by {
            let q = choose|q: int| 0 <= q < s.len() && s[q] == out[k];
            assert(fits_fields(s[q].kind));
        }
    }
}

/// The tick reached after the first `n` delta times of `deltas`.
pub open spec fn tick_after(deltas: Seq<DeltaEvent>, n: int) -> int
    decreases n,
{
    if n <= 0 {
        0
    } else {
        tick_after(deltas, n - 1) + deltas[n - 1].delta
    }
}

/// In a sequence ordered by tick, the delta times up to an event add up to
/// the tick of that event.
pub proof fn lemma_delta_sums(s: Seq<MidiEvent>, j: int)
    requires
        ordered_by_tick(s),
        0 <= j < s.len(),
    ensures
        tick_after(delta_encoded(s), j + 1) == s[j].tick,
    decreases j,
{
    if j > 0 {
        lemma_delta_sums(s, j - 1);
        assert(s[j - 1].tick <= s[j].tick);
    } else {
        assert(tick_after(delta_encoded(s), 0) == 0);
    }
}

/// The event strikes the key `key`.
pub open spec fn strikes(event: MidiEvent, key: u8) -> bool {
    event.kind matches MidiEventKind::NoteOn { key: k, .. } && k == key
}

/// The event releases the key `key`.
pub open spec fn releases(event: MidiEvent, key: u8) -> bool {
    event.kind matches MidiEventKind::NoteOff { key: k, .. } && k == key
}

/// From place `from` on, wherever a strike of a key is followed on the same
/// tick by a release of that key, the release stands directly behind it.
pub open spec fn releases_follow_directly(s: Seq<MidiEvent>, from: int) -> bool {
    forall|p: int, q: int, key: u8|
        from <= p < q < s.len() && #[trigger] strikes(s[p], key) && #[trigger] releases(s[q], key) && s[p].tick
            == s[q].tick ==> q == p + 1
}

/// No strike of a key stands before a release of that key on the same
/// tick.
pub open spec fn releases_precede_strikes(s: Seq<MidiEvent>) -> bool {
    forall|a: int, b: int, key: u8|
        0 <= a < b < s.len() && #[trigger] strikes(s[a], key) && #[trigger] releases(s[b], key) ==> s[a].tick
            != s[b].tick
}

/// Where every release that shares the tick of an earlier strike of its key
/// stands directly behind that strike, letting releases go first leaves no
/// strike before a release of its key on the same tick.
pub proof fn lemma_release_first_order(s: Seq<MidiEvent>, i: int)
    requires
        0 <= i <= s.len(),
        releases_follow_directly(s, i),
    ensures
        releases_precede_strikes(release_first(s, i)),
    decreases s.len() - i,
{
    let now = release_first(s, i);
    if i < s.len() {
        if strikes_before_release(s, i) {
            let rest = release_first(s, i + 2);
            lemma_release_first_order(s, i + 2);
            lemma_release_first_members(s, i + 2);
            assert forall|a: int, b: int, key: u8|
                0 <= a < b < now.len() && #[trigger] strikes(now[a], key) && #[trigger] releases(
                    now[b],
                    key,
                ) implies now[a].tick != now[b].tick by {
                if a == 0 {
                    assert(now[0] == s[i + 1]);
                } else if a == 1 {
                    assert(now[1] == s[i]);
                    assert(now[b] == rest[b - 2]);
                    let q = choose|q: int| i + 2 <= q < s.len() && s[q] == rest[b - 2];
                    if now[a].tick == now[b].tick {
                        assert(strikes(s[i], key) && releases(s[q], key));
                        assert(q == i + 1);
                    }
                } else {
                    assert(now[a] == rest[a - 2]);
                    assert(now[b] == rest[b - 2]);
                    assert(strikes(rest[a - 2], key) && releases(rest[b - 2], key));
                }
            }
        } else {
            let rest = release_first(s, i + 1);
            lemma_release_first_order(s, i + 1);
            lemma_release_first_members(s, i + 1);
            assert forall|a: int, b: int, key: u8|
                0 <= a < b < now.len() && #[trigger] strikes(now[a], key) && #[trigger] releases(
                    now[b],
                    key,
                ) implies now[a].tick != now[b].tick by {
                if a == 0 {
                    assert(now[0] == s[i]);
                    assert(now[b] == rest[b - 1]);
                    let q = choose|q: int| i + 1 <= q < s.len() && s[q] == rest[b - 1];
                    if now[a].tick == now[b].tick {
                        assert(strikes(s[i], key) && releases(s[q], key));
                        assert(q == i + 1);
                        assert(strikes_before_release(s, i));
                    }
                } else {
                    assert(now[a] == rest[a - 1]);
                    assert(now[b] == rest[b - 1]);
                    assert(strikes(rest[a - 1], key) && releases(rest[b - 1], key));
                }
            }
        }
    }
}

/// Letting releases go first moves no event by more than one place; a
/// strike is never moved to an earlier place, and a release never to a
/// later one.
pub proof fn lemma_release_first_places(s: Seq<MidiEvent>, i: int, p: int)
    requires
        0 <= i <= p < s.len(),
    ensures
        exists|a: int|
            {
                &&& 0 <= a < release_first(s, i).len()
                &&& #[trigger] release_first(s, i)[a] == s[p]
                &&& p - i - 1 <= a <= p - i + 1
                &&& s[p].kind.is_note_on() ==> a >= p - i
                &&& s[p].kind.is_note_off() ==> a <= p - i
            },
    decreases s.len() - i,
{
    let now = release_first(s, i);
    lemma_release_first_ticks(s, i);
    if strikes_before_release(s, i) {
        let rest = release_first(s, i + 2);
        lemma_release_first_ticks(s, i + 2);
        if p == i {
            assert(now[1] == s[p]);
        } else if p == i + 1 {
            assert(now[0] == s[p]);
        } else {
            lemma_release_first_places(s, i + 2, p);
            let a = choose|a: int|
                {
                    &&& 0 <= a < rest.len()
                    &&& #[trigger] rest[a] == s[p]
                    &&& p - (i + 2) - 1 <= a <= p - (i + 2) + 1
                    &&& s[p].kind.is_note_on() ==> a >= p - (i + 2)
                    &&& s[p].kind.is_note_off() ==> a <= p - (i + 2)
                };
            assert(now[a + 2] == rest[a]);
        }
    } else {
        let rest = release_first(s, i + 1);
        lemma_release_first_ticks(s, i + 1);
        if p == i {
            assert(now[0] == s[p]);
        } else {
            lemma_release_first_places(s, i + 1, p);
            let a = choose|a: int|
                {
                    &&& 0 <= a < rest.len()
                    &&& #[trigger] rest[a] == s[p]
                    &&& p - (i + 1) - 1 <= a <= p - (i + 1) + 1
                    &&& s[p].kind.is_note_on() ==> a >= p - (i + 1)
                    &&& s[p].kind.is_note_off() ==> a <= p - (i + 1)
                };
            assert(now[a + 1] == rest[a]);
        }
    }
}

/// Where another event stands between a strike and a later release of its
/// key on the same tick, the strike still stands before the release after
/// releases have gone first: only neighbours change places.
pub proof fn lemma_release_first_keeps_distant(s: Seq<MidiEvent>, p: int, q: int, key: u8)
    requires
        0 <= p,
        p + 1 < q < s.len(),
        strikes(s[p], key),
        releases(s[q], key),
        s[p].tick == s[q].tick,
    ensures
        !releases_precede_strikes(release_first(s, 0)),
{
    let out = release_first(s, 0);
    lemma_release_first_places(s, 0, p);
    lemma_release_first_places(s, 0, q);
    let a = choose|a: int|
        {
            &&& 0 <= a < out.len()
            &&& #[trigger] out[a] == s[p]
            &&& p - 0 - 1 <= a <= p - 0 + 1
            &&& s[p].kind.is_note_on() ==> a >= p - 0
            &&& s[p].kind.is_note_off() ==> a <= p - 0
        };
    let b = choose|b: int|
        {
            &&& 0 <= b < out.len()
            &&& #[trigger] out[b] == s[q]
            &&& q - 0 - 1 <= b <= q - 0 + 1
            &&& s[q].kind.is_note_on() ==> b >= q - 0
            &&& s[q].kind.is_note_off() ==> b <= q - 0
        };
    assert(a <= p + 1 <= q - 1 <= b);
    assert(a != b);
    assert(strikes(out[a], key) && releases(out[b], key) && out[a].tick == out[b].tick);
}

} // verus!
