//! Frames of a view window, and the notes that stream into them.

use vstd::prelude::*;

use crate::bytes::lesser;
use crate::fast_midi::MidiEvent;
use crate::note::PackedNote;
use crate::primitive::{Fps, Timing};
use crate::streaming::{division_of, due, ends_behind, finished_in_view, held_notes, in_view, is_next};
use crate::streaming::{key_notes, lemma_pending_less, pending, provisional_end};
use crate::streaming::{sounding, sounds_at, timed, waiting, with_finished, LoaderState};
use crate::tick::{lemma_single_exact, single, TickPoint};

verus! {

/// Whether a note is the one of a key that is held since a tick, with the number of its
/// track.
pub open spec fn is_held(note: PackedNote, since: u32, velocity: u8, k: int, t: int) -> bool {
    &&& note.start_tick == since
    &&& note.key == k
    &&& note.velocity == (if velocity < 128 {
        velocity as int
    } else {
        velocity - 128
    })
    &&& note.track == t
}

/// Whether a tick, in single precision, is no later than a place.
pub open spec fn reached(tick: u32, limit: TickPoint) -> bool {
    limit matches TickPoint::At { whole, .. } ==> single(tick) <= whole
}

/// Every held key that is reached has its note among those of its track.
proof fn lemma_key_noted(
    keys: Seq<Option<(u32, u8)>>,
    n: int,
    track: u16,
    limit: TickPoint,
    end: u32,
    k: int,
) -> (i: int)
    requires
        0 <= k < n <= 128,
        n <= keys.len(),
        keys[k] matches Some((since, _)) && reached(since, limit),
    ensures
        ({
            let notes = key_notes(keys, n, track, limit, end);
            let (since, velocity) = keys[k]->0;
            &&& 0 <= i < notes.len()
            &&& is_held(notes[i], since, velocity, k, track as int)
            &&& notes[i].end_tick == end
        }),
    decreases n,
{
    if n - 1 == k {
        key_notes(keys, n - 1, track, limit, end).len() as int
    } else {
        lemma_key_noted(keys, n - 1, track, limit, end, k)
    }
}

/// Every note of a track comes from a held key of it that is reached.
proof fn lemma_noted_key(
    keys: Seq<Option<(u32, u8)>>,
    n: int,
    track: u16,
    limit: TickPoint,
    end: u32,
    i: int,
) -> (k: int)
    requires
        n <= 128,
        n <= keys.len(),
        0 <= i < key_notes(keys, n, track, limit, end).len(),
    ensures
        0 <= k < n,
        keys[k] matches Some((since, velocity)) && reached(since, limit) && is_held(
            key_notes(keys, n, track, limit, end)[i],
            since,
            velocity,
            k,
            track as int,
        ),
        key_notes(keys, n, track, limit, end)[i].end_tick == end,
    decreases n,
{
    let before = key_notes(keys, n - 1, track, limit, end);
    if i < before.len() {
        lemma_noted_key(keys, n - 1, track, limit, end, i)
    } else {
        n - 1
    }
}

proof fn lemma_held_noted(
    active: Seq<Seq<Option<(u32, u8)>>>,
    n: int,
    limit: TickPoint,
    end: u32,
    t: int,
    k: int,
) -> (i: int)
    requires
        0 <= t < n <= active.len() <= 0x1_0000,
        active[t].len() == 128,
        0 <= k < 128,
        active[t][k] matches Some((since, _)) && reached(since, limit),
    ensures
        ({
            let notes = held_notes(active, n, limit, end);
            let (since, velocity) = active[t][k]->0;
            &&& 0 <= i < notes.len()
            &&& is_held(notes[i], since, velocity, k, t)
            &&& notes[i].end_tick == end
        }),
    decreases n,
{
    let before = held_notes(active, n - 1, limit, end);
    if n - 1 == t {
        before.len() + lemma_key_noted(active[t], 128, t as u16, limit, end, k)
    } else {
        lemma_held_noted(active, n - 1, limit, end, t, k)
    }
}

proof fn lemma_noted_held(
    active: Seq<Seq<Option<(u32, u8)>>>,
    n: int,
    limit: TickPoint,
    end: u32,
    i: int,
) -> (r: (int, int))
    requires
        n <= active.len() <= 0x1_0000,
        forall|t: int| 0 <= t < active.len() ==> (#[trigger] active[t]).len() == 128,
        0 <= i < held_notes(active, n, limit, end).len(),
    ensures
        0 <= r.0 < n,
        0 <= r.1 < 128,
        active[r.0][r.1] matches Some((since, velocity)) && reached(since, limit) && is_held(
            held_notes(active, n, limit, end)[i],
            since,
            velocity,
            r.1,
            r.0,
        ),
        held_notes(active, n, limit, end)[i].end_tick == end,
    decreases n,
{
    let before = held_notes(active, n - 1, limit, end);
    if i < before.len() {
        lemma_noted_held(active, n - 1, limit, end, i)
    } else {
        let k = lemma_noted_key(
            active[n - 1],
            128,
            (n - 1) as u16,
            limit,
            end,
            i - before.len(),
        );
        (n - 1, k)
    }
}

/// A frame that is not full holds the note of every key that is held since a tick no
/// later than the limit: with that start and velocity, the key, the number of its track
/// and the provisional end.
pub proof fn lemma_held_keys_show(
    state: LoaderState,
    limit: TickPoint,
    min_end: TickPoint,
    t: int,
    k: int,
)
    requires
        0 <= t < state.active.len() <= 0x1_0000,
        state.active[t].len() == 128,
        0 <= k < 128,
        state.active[t][k] matches Some((since, _)) && reached(since, limit),
        state.frame(limit, min_end).len() < 10_000,
    ensures
        ({
            let (since, velocity) = state.active[t][k]->0;
            exists|i: int|
                0 <= i < state.frame(limit, min_end).len() && is_held(
                    #[trigger] state.frame(limit, min_end)[i],
                    since,
                    velocity,
                    k,
                    t,
                ) && state.frame(limit, min_end)[i].end_tick == provisional_end(limit.clamped())
        }),
{
    let end = provisional_end(limit.clamped());
    let finished = finished_in_view(state.finished, limit, min_end);
    let held = held_notes(state.active, state.active.len() as int, limit, end);
    let i = lemma_held_noted(state.active, state.active.len() as int, limit, end, t, k);
    let all = finished + held;
    assert(state.frame(limit, min_end) == all);
    assert(all[finished.len() + i] == held[i]);
}

/// Every note of a frame is a finished note in view, or the note of some held key of some
/// track, with the number of that track.
pub proof fn lemma_frame_notes(
    state: LoaderState,
    limit: TickPoint,
    min_end: TickPoint,
    i: int,
)
    requires
        state.active.len() <= 0x1_0000,
        forall|t: int| 0 <= t < state.active.len() ==> (#[trigger] state.active[t]).len() == 128,
        0 <= i < state.frame(limit, min_end).len(),
    ensures
        ({
            let note = state.frame(limit, min_end)[i];
            ||| state.finished.contains(note) && in_view(note, limit, min_end)
            ||| note.end_tick == provisional_end(limit.clamped()) && exists|t: int, k: int|
                0 <= t < state.active.len() && 0 <= k < 128 && (
                #[trigger] state.active[t][k] matches Some((since, velocity)) && reached(
                    since,
                    limit,
                ) && is_held(note, since, velocity, k, t))
        }),
{
    let end = provisional_end(limit.clamped());
    let finished = finished_in_view(state.finished, limit, min_end);
    let n = state.active.len() as int;
    let held = held_notes(state.active, n, limit, end);
    let all = finished + held;
    let note = state.frame(limit, min_end)[i];
    assert(note == all[i]);
    if i < finished.len() {
        assert(finished.contains(note));
        lemma_finished_shown(state.finished, limit, min_end, i);
    } else {
        let (t, k) = lemma_noted_held(state.active, n, limit, end, i - finished.len());
        assert(note == held[i - finished.len()]);
        let (since, velocity) = state.active[t][k]->0;
        assert(reached(since, limit) && is_held(note, since, velocity, k, t));
    }
}

proof fn lemma_finished_shown(
    finished: Seq<PackedNote>,
    limit: TickPoint,
    min_end: TickPoint,
    i: int,
)
    requires
        0 <= i < finished_in_view(finished, limit, min_end).len(),
    ensures
        finished.contains(finished_in_view(finished, limit, min_end)[i]),
        in_view(finished_in_view(finished, limit, min_end)[i], limit, min_end),
    decreases finished.len(),
{
    if finished.len() > 0 {
        let rest = finished.drop_last();
        let before = finished_in_view(rest, limit, min_end);
        if i < before.len() {
            lemma_finished_shown(rest, limit, min_end, i);
            let k = choose|k: int| 0 <= k < rest.len() && rest[k] == before[i];
            assert(finished[k] == before[i]);
        } else {
            assert(finished[finished.len() - 1] == finished.last());
        }
    }
}

/// A note is in view where it starts no later than the limit and ends no sooner than the
/// least end; a least end between two ticks is only reached by the later one.
pub proof fn lemma_view(note: PackedNote, a: i64, a_past: bool, b: i64, b_past: bool)
    ensures
        ({
            let limit = TickPoint::At { whole: a, past: a_past };
            let min_end = TickPoint::At { whole: b, past: b_past };
            in_view(note, limit, min_end) <==> single(note.start_tick) <= a && (single(note.end_tick)
                > b || (single(note.end_tick) == b && !b_past))
        }),
        in_view(note, TickPoint::Undefined, TickPoint::Undefined),
{
}

/// A note sounds at a place where it starts no later and ends no sooner.
pub proof fn lemma_sounds(note: PackedNote, a: i64, past: bool)
    ensures
        sounds_at(note, TickPoint::At { whole: a, past }) <==> single(note.start_tick) <= a && (single(
            note.end_tick,
        ) > a || (single(note.end_tick) == a && !past)),
        !sounds_at(note, TickPoint::Undefined),
{
}

/// The track that sounds a key is that of the last note of a frame that does; there is
/// none where no note does.
pub proof fn lemma_sounding_track(notes: Seq<PackedNote>, current: TickPoint, key: int)
    ensures
        match sounding(notes, current, key) {
            Some(track) => exists|i: int|
                0 <= i < notes.len() && (#[trigger] notes[i]).key == key && sounds_at(
                    notes[i],
                    current,
                ) && notes[i].track == track && forall|j: int|
                    i < j < notes.len() ==> !((#[trigger] notes[j]).key == key && sounds_at(
                        notes[j],
                        current,
                    )),
            None => forall|j: int|
                0 <= j < notes.len() ==> !((#[trigger] notes[j]).key == key && sounds_at(
                    notes[j],
                    current,
                )),
        },
    decreases notes.len(),
{
    if notes.len() > 0 {
        let rest = notes.drop_last();
        let n = notes.len() - 1;
        if notes.last().key == key && sounds_at(notes.last(), current) {
            assert(notes[n].key == key);
        } else {
            lemma_sounding_track(rest, current, key);
            match sounding(rest, current, key) {
                Some(track) => {
                    let i = choose|i: int|
                        0 <= i < rest.len() && (#[trigger] rest[i]).key == key && sounds_at(
                            rest[i],
                            current,
                        ) && rest[i].track == track && forall|j: int|
                            i < j < rest.len() ==> !((#[trigger] rest[j]).key == key && sounds_at(
                                rest[j],
                                current,
                            ));
                    assert(notes[i] == rest[i]);
                    assert forall|j: int| i < j < notes.len() implies !((
                    #[trigger] notes[j]).key == key && sounds_at(notes[j], current)) by {
                        if j < n {
                            assert(notes[j] == rest[j]);
                        }
                    }
                },
                None => {
                    assert forall|j: int| 0 <= j < notes.len() implies !((
                    #[trigger] notes[j]).key == key && sounds_at(notes[j], current)) by {
                        if j < n {
                            assert(notes[j] == rest[j]);
                        }
                    }
                },
            }
        }
    }
}

/// The provisional end of held notes is the limit itself, up to 2^24; behind that it is
/// the limit in single precision, inside the range of ticks.
pub proof fn lemma_provisional(whole: i64, past: bool)
    ensures
        ({
            let end = provisional_end(TickPoint::At { whole, past }.clamped());
            &&& 0 <= whole <= 0x100_0000 ==> end == whole
            &&& whole < 0 ==> end == 0
            &&& 0 <= whole <= u32::MAX ==> end == lesser(single(whole as u32), 0xFFFF_FFFF)
            &&& whole > u32::MAX ==> end == 0xFFFF_FFFF
        }),
        provisional_end(TickPoint::Undefined.clamped()) == 0,
{
    if 0 <= whole <= 0x100_0000 {
        lemma_single_exact(whole as u32);
    }
    lemma_single_exact(0);
    assert(single(0xFFFF_FFFF) == 0x1_0000_0000) by {
        assert(0xFFFF_FFFFu32 / 256 == 0xFF_FFFF);
        assert(0xFFFF_FFFFu32 % 256 == 255);
    }
    crate::tick::lemma_single_near(TickPoint::At { whole, past }.clamped());
}

/// Ticks per quarter note, or ticks per frame.
pub proof fn lemma_division(ticks: crate::primitive::u15, fps: Fps, frame: u8)
    ensures
        division_of(Timing::Metrical(ticks)) == ticks.value(),
        division_of(Timing::Timecode(fps, frame)) == frame,
{
}

/// Whether the finished notes of one loader are the newest of another one that has room
/// for all, at least three quarters of the limit of them, and the loaders agree on the
/// rest.
pub open spec fn newest_of(a: LoaderState, b: LoaderState) -> bool {
    let gone = b.finished.len() - a.finished.len();
    &&& gone >= 0
    &&& a.finished == b.finished.skip(gone)
    &&& a.finished.len() <= a.max_finished
    &&& gone == 0 || 4 * a.finished.len() >= 3 * a.max_finished
    &&& a.queues == b.queues
    &&& a.active == b.active
}

proof fn lemma_finish_newest(a: LoaderState, b: LoaderState, note: PackedNote)
    requires
        newest_of(a, b),
        b.finished.len() < b.max_finished,
    ensures
        ({
            let x = with_finished(a.finished, note, a.max_finished);
            let y = with_finished(b.finished, note, b.max_finished);
            let gone = y.len() - x.len();
            &&& gone >= 0
            &&& x == y.skip(gone)
            &&& x.len() <= a.max_finished
            &&& gone == 0 || 4 * x.len() >= 3 * a.max_finished
            &&& y.len() == b.finished.len() + 1
        }),
{
    let x = with_finished(a.finished, note, a.max_finished);
    let y = with_finished(b.finished, note, b.max_finished);
    assert(y =~= b.finished.push(note));
    assert(x =~= y.skip(y.len() - x.len()));
}

proof fn lemma_release_newest(a: LoaderState, b: LoaderState, tick: u32, track: int, key: u8)
    requires
        newest_of(a, b),
        b.finished.len() < b.max_finished,
    ensures
        newest_of(a.release(tick, track, key), b.release(tick, track, key)),
        b.release(tick, track, key).finished.len() <= b.finished.len() + 1,
        a.release(tick, track, key).max_finished == a.max_finished,
        b.release(tick, track, key).max_finished == b.max_finished,
{
    if key < 128 {
        if let Some((since, velocity)) = a.active[track][key as int] {
            let note = PackedNote::of(since, tick, key, velocity, (track % 0x1_0000) as u16);
            lemma_finish_newest(a, b, note);
        }
    }
}

proof fn lemma_run_newest(a: LoaderState, b: LoaderState, target: u32)
    requires
        newest_of(a, b),
        b.finished.len() + pending(b.queues) <= b.max_finished,
    ensures
        newest_of(a.run(target), b.run(target)),
        a.run(target).max_finished == a.max_finished,
    decreases pending(b.queues),
{
    if exists|j: int| is_next(b.queues, j) {
        let j = choose|j: int| is_next(b.queues, j);
        if b.queues[j][0].0 <= target {
            lemma_pending_less(b.queues, j);
            let (tick, event) = b.queues[j][0];
            match crate::loader::cue_of(event) {
                crate::cue::Cue::Strike { key, .. } => lemma_release_newest(a, b, tick, j, key),
                crate::cue::Cue::Release { key } => lemma_release_newest(a, b, tick, j, key),
                _ => {},
            }
            lemma_run_newest(a.take(j), b.take(j), target);
        }
    }
}

/// A limit on the finished notes only costs the oldest ones: what is kept are the newest
/// of those that a loader with room for all would have, at least three quarters of the
/// limit of them, and the held keys and the events to come are the same.
pub proof fn lemma_limit_keeps_newest(state: LoaderState, room: nat, target: u32)
    requires
        state.finished.len() <= state.max_finished,
        state.finished.len() + pending(state.queues) <= room,
    ensures
        newest_of(
            state.advance(target),
            (LoaderState { max_finished: room, ..state }).advance(target),
        ),
        state.advance(target).max_finished == state.max_finished,
{
    let all = LoaderState { max_finished: room, ..state };
    assert(state.finished =~= all.finished.skip(0));
    lemma_run_newest(state, all, target);
}

/// The ticks of the events of a track add up from delta time to delta time, up to the
/// last tick there is.
pub proof fn lemma_event_ticks(events: Seq<(u32, MidiEvent<Seq<u8>>)>, tick: u32, i: int)
    requires
        0 <= i < events.len(),
    ensures
        ({
            let queue = timed(events, tick);
            let before = if i == 0 {
                tick
            } else {
                queue[i - 1].0
            };
            &&& queue.len() == events.len()
            &&& queue[i].1 == events[i].1
            &&& queue[i].0 == lesser(before + events[i].0, 0xFFFF_FFFF)
        }),
    decreases events.len(),
{
    let queue = timed(events, tick);
    let rest = events.drop_first();
    let now = queue[0].0;
    let tail = timed(rest, now);
    assert(queue == seq![(now, events[0].1)] + tail);
    if i > 0 {
        lemma_event_ticks(rest, now, i - 1);
        assert(queue[i] == tail[i - 1]);
        if i > 1 {
            assert(queue[i - 1] == tail[i - 2]);
        }
    } else if rest.len() > 0 {
        lemma_event_ticks(rest, now, 0);
    }
}

/// The events that happen up to a tick are those at the head of a queue.
pub proof fn lemma_due_events(queue: Seq<(u32, MidiEvent<Seq<u8>>)>, target: u32, i: int)
    ensures
        ({
            let n = due(queue, target);
            &&& 0 <= n <= queue.len()
            &&& 0 <= i < n ==> queue[i].0 <= target
            &&& n < queue.len() ==> queue[n].0 > target
        }),
    decreases queue.len(),
{
    if queue.len() > 0 && queue[0].0 <= target {
        let rest = queue.drop_first();
        lemma_due_events(rest, target, i - 1);
    }
}

/// A frame is the first 10,000 notes of the finished notes in view and the held notes
/// behind them.
pub proof fn lemma_frame_is_full_or_all(state: LoaderState, limit: TickPoint, min_end: TickPoint)
    ensures
        ({
            let all = finished_in_view(state.finished, limit, min_end) + held_notes(
                state.active,
                state.active.len() as int,
                limit,
                provisional_end(limit.clamped()),
            );
            let frame = state.frame(limit, min_end);
            &&& frame.len() == lesser(all.len() as int, 10_000)
            &&& frame == all.take(frame.len() as int)
        }),
{
    let all = finished_in_view(state.finished, limit, min_end) + held_notes(
        state.active,
        state.active.len() as int,
        limit,
        provisional_end(limit.clamped()),
    );
    assert(all.take(all.len() as int) =~= all);
}

/// The next event is one with the least tick of all that come next, and of those the one
/// of the first track.
pub proof fn lemma_next_is_least(queues: Seq<Seq<(u32, MidiEvent<Seq<u8>>)>>, i: int, j: int)
    requires
        is_next(queues, i),
        0 <= j < queues.len(),
        queues[j].len() > 0,
    ensures
        queues[i][0].0 <= queues[j][0].0,
        queues[i][0].0 == queues[j][0].0 ==> i <= j,
{
}

/// Whether the ticks of every queue do not fall.
pub open spec fn queues_in_order(queues: Seq<Seq<(u32, MidiEvent<Seq<u8>>)>>) -> bool {
    forall|t: int, a: int, b: int|
        0 <= t < queues.len() && 0 <= a <= b < queues[t].len() ==> (#[trigger] queues[t][a]).0 <= (
        #[trigger] queues[t][b]).0
}

/// Whether the finished notes come in the order of their ends, and end by a tick.
pub open spec fn ends_in_order(finished: Seq<PackedNote>, by: u32) -> bool {
    &&& forall|a: int, b: int|
        0 <= a <= b < finished.len() ==> (#[trigger] finished[a]).end_tick <= (
        #[trigger] finished[b]).end_tick
    &&& forall|a: int| 0 <= a < finished.len() ==> (#[trigger] finished[a]).end_tick <= by
}

proof fn lemma_finish_in_order(finished: Seq<PackedNote>, note: PackedNote, max: nat, by: u32)
    requires
        ends_in_order(finished, by),
        by <= note.end_tick,
    ensures
        ends_in_order(with_finished(finished, note, max), note.end_tick),
{
    let all = finished.push(note);
    assert(ends_in_order(all, note.end_tick));
    let r = with_finished(finished, note, max);
    let gone = all.len() - r.len();
    assert(forall|a: int| 0 <= a < r.len() ==> r[a] == all[a + gone]);
}

proof fn lemma_take_in_order(state: LoaderState, j: int, by: u32)
    requires
        is_next(state.queues, j),
        queues_in_order(state.queues),
        ends_in_order(state.finished, by),
        by <= state.queues[j][0].0,
    ensures
        queues_in_order(state.take(j).queues),
        ends_in_order(state.take(j).finished, state.queues[j][0].0),
        forall|t: int|
            0 <= t < state.queues.len() && (#[trigger] state.take(j).queues[t]).len() > 0
                ==> state.queues[j][0].0 <= state.take(j).queues[t][0].0,
{
    let (tick, event) = state.queues[j][0];
    let after = state.take(j).queues;
    let key = match crate::loader::cue_of(event) {
        crate::cue::Cue::Strike { key, .. } => key,
        crate::cue::Cue::Release { key } => key,
        _ => 255,
    };
    assert(ends_in_order(state.finished, tick));
    if key < 128 {
        if let Some((since, velocity)) = state.active[j][key as int] {
            let note = PackedNote::of(since, tick, key, velocity, (j % 0x1_0000) as u16);
            lemma_finish_in_order(state.finished, note, state.max_finished, by);
        }
    }
    assert forall|t: int, a: int, b: int|
        0 <= t < after.len() && 0 <= a <= b < after[t].len() implies (#[trigger] after[t][a]).0 <= (
    #[trigger] after[t][b]).0 by {
        if t == j {
            assert(after[t][a] == state.queues[t][a + 1]);
            assert(after[t][b] == state.queues[t][b + 1]);
        }
    }
    assert forall|t: int| 0 <= t < state.queues.len() && (#[trigger] after[t]).len() > 0 implies tick
        <= after[t][0].0 by {
        if t == j {
            assert(after[t][0] == state.queues[t][1]);
            assert(state.queues[t][0].0 <= state.queues[t][1].0);
        } else {
            assert(state.queues[t].len() > 0);
        }
    }
}

proof fn lemma_run_in_order(state: LoaderState, target: u32, by: u32)
    requires
        queues_in_order(state.queues),
        ends_in_order(state.finished, by),
        forall|t: int|
            0 <= t < state.queues.len() && (#[trigger] state.queues[t]).len() > 0 ==> by
                <= state.queues[t][0].0,
    ensures
        ends_in_order(state.run(target).finished, u32::MAX),
        by <= target ==> ends_in_order(state.run(target).finished, target),
    decreases pending(state.queues),
{
    if exists|j: int| is_next(state.queues, j) {
        let j = choose|j: int| is_next(state.queues, j);
        if state.queues[j][0].0 <= target {
            lemma_pending_less(state.queues, j);
            lemma_take_in_order(state, j, by);
            lemma_run_in_order(state.take(j), target, state.queues[j][0].0);
        }
    }
}

/// The finished notes of a fresh loader that reads on come in the order of their ends, and
/// none ends behind the place that was read to.
pub proof fn lemma_finished_in_order(
    tracks: Seq<Seq<u8>>,
    max_finished: nat,
    target: u32,
    a: int,
    b: int,
)
    requires
        ({
            let start = LoaderState { max_finished, ..crate::streaming::fresh(tracks) };
            0 <= a <= b < start.advance(target).finished.len()
        }),
    ensures
        ({
            let start = LoaderState { max_finished, ..crate::streaming::fresh(tracks) };
            let finished = start.advance(target).finished;
            &&& finished[a].end_tick <= finished[b].end_tick
            &&& finished[b].end_tick <= target
        }),
{
    let start = LoaderState { max_finished, ..crate::streaming::fresh(tracks) };
    assert forall|t: int, x: int, y: int|
        0 <= t < start.queues.len() && 0 <= x <= y < start.queues[t].len() implies (
    #[trigger] start.queues[t][x]).0 <= (#[trigger] start.queues[t][y]).0 by {
        let events = crate::fast_midi::track_events(tracks[t], 0, None);
        lemma_timed_order(events, 0, x, y);
    }
    lemma_run_in_order(start, target, 0);
}

proof fn lemma_timed_order(events: Seq<(u32, MidiEvent<Seq<u8>>)>, tick: u32, x: int, y: int)
    requires
        0 <= x <= y < timed(events, tick).len(),
    ensures
        timed(events, tick)[x].0 <= timed(events, tick)[y].0,
        tick <= timed(events, tick)[x].0,
    decreases events.len(),
{
    let queue = timed(events, tick);
    let rest = events.drop_first();
    let now = queue[0].0;
    assert(queue.drop_first() =~= timed(rest, now));
    if y > 0 {
        if x > 0 {
            lemma_timed_order(rest, now, x - 1, y - 1);
            assert(queue[x] == timed(rest, now)[x - 1]);
        } else {
            lemma_timed_order(rest, now, 0, y - 1);
        }
        assert(queue[y] == timed(rest, now)[y - 1]);
    }
}

/// How many finished notes are kept when one more ends: all of them below the limit; at
/// the limit a quarter of it goes, and at least one.
pub proof fn lemma_kept_count(finished: Seq<PackedNote>, note: PackedNote, max: nat)
    ensures
        ({
            let kept = with_finished(finished, note, max);
            &&& finished.len() < max ==> kept == finished.push(note)
            &&& finished.len() == max && max >= 4 ==> kept.len() == max + 1 - max / 4
            &&& finished.len() == max && max < 4 ==> kept.len() == max
            &&& finished.len() > max ==> kept.len() <= max
            &&& max > 0 ==> kept.len() > 0 && kept.last() == note
        }),
{
    let all = finished.push(note);
    let kept = with_finished(finished, note, max);
    if kept.len() > 0 {
        assert(kept.last() == all[all.len() - 1]);
    }
}

/// The tick of a place is the whole tick at it or before it, inside the range of ticks.
pub proof fn lemma_clamped(whole: i64, past: bool)
    ensures
        ({
            let tick = TickPoint::At { whole, past }.clamped();
            &&& 0 <= whole <= 0xFFFF_FFFF ==> tick == whole
            &&& whole < 0 ==> tick == 0
            &&& whole > 0xFFFF_FFFF ==> tick == 0xFFFF_FFFF
        }),
        TickPoint::Undefined.clamped() == 0,
{
}

/// How many events are to come, and how many tracks have some, grows with every track.
pub proof fn lemma_one_more_queue(
    queues: Seq<Seq<(u32, MidiEvent<Seq<u8>>)>>,
    queue: Seq<(u32, MidiEvent<Seq<u8>>)>,
)
    ensures
        pending(queues.push(queue)) == pending(queues) + queue.len(),
        queue.len() > 0 ==> waiting(queues.push(queue)) == waiting(queues) + 1,
        queue.len() == 0 ==> waiting(queues.push(queue)) == waiting(queues),
        pending(seq![]) == 0 && waiting(seq![]) == 0,
{
    assert(queues.push(queue).drop_last() =~= queues);
    assert(queues.push(queue).last() == queue);
}

/// A loader starts with the events of every track, no key held and no note finished.
pub proof fn lemma_fresh(tracks: Seq<Seq<u8>>, t: int, k: int)
    requires
        0 <= t < tracks.len(),
        0 <= k < 128,
    ensures
        ({
            let start = crate::streaming::fresh(tracks);
            &&& start.queues.len() == tracks.len() == start.active.len()
            &&& start.queues[t] == timed(crate::fast_midi::track_events(tracks[t], 0, None), 0)
            &&& start.active[t].len() == 128 && start.active[t][k] is None
            &&& start.finished.len() == 0
            &&& start.max_finished == 32_768
        }),
{
}

/// Old notes are forgotten from the front as long as they ended before the least end, and
/// nothing else changes.
pub proof fn lemma_forgotten(state: LoaderState, min_end: u32)
    ensures
        ({
            let after = state.prune(min_end);
            &&& after.queues == state.queues && after.active == state.active
            &&& state.finished.len() == 0 ==> after == state
            &&& state.finished.len() > 0 && state.finished[0].end_tick >= min_end ==> after == state
            &&& state.finished.len() > 0 && state.finished[0].end_tick < min_end ==> after
                == (LoaderState { finished: state.finished.drop_first(), ..state }).prune(min_end)
        }),
{
    crate::streaming::lemma_prune_old(state, min_end);
}

/// Each finished note in view is shown once, in the order in which the notes ended.
pub proof fn lemma_one_more_finished(
    finished: Seq<PackedNote>,
    note: PackedNote,
    limit: TickPoint,
    min_end: TickPoint,
)
    ensures
        ({
            let shown = finished_in_view(finished, limit, min_end);
            finished_in_view(finished.push(note), limit, min_end) == if in_view(
                note,
                limit,
                min_end,
            ) {
                shown.push(note)
            } else {
                shown
            }
        }),
        finished_in_view(seq![], limit, min_end).len() == 0,
{
    assert(finished.push(note).drop_last() =~= finished);
}

/// Each held key is shown once, the low keys first, and the tracks in their order.
pub proof fn lemma_one_more_key(
    active: Seq<Seq<Option<(u32, u8)>>>,
    t: int,
    n: int,
    limit: TickPoint,
    end: u32,
)
    requires
        0 <= t < active.len() <= 0x1_0000,
        0 <= n < 128,
        active[t].len() == 128,
    ensures
        ({
            let keys = active[t];
            let before = key_notes(keys, n, t as u16, limit, end);
            let after = key_notes(keys, n + 1, t as u16, limit, end);
            match keys[n] {
                Some((since, velocity)) if reached(since, limit) => {
                    &&& after.len() == before.len() + 1
                    &&& after.take(before.len() as int) == before
                    &&& is_held(after.last(), since, velocity, n, t)
                    &&& after.last().end_tick == end
                },
                _ => after == before,
            }
        }),
        held_notes(active, t + 1, limit, end) == held_notes(active, t, limit, end) + key_notes(
            active[t],
            128,
            t as u16,
            limit,
            end,
        ),
        key_notes(active[t], 0, t as u16, limit, end).len() == 0,
        held_notes(active, 0, limit, end).len() == 0,
{
    let before = key_notes(active[t], n, t as u16, limit, end);
    let after = key_notes(active[t], n + 1, t as u16, limit, end);
    if after.len() > before.len() {
        assert(after.take(before.len() as int) =~= before);
    }
}

/// A track ends behind a tick just where not all of its events have happened by then.
pub proof fn lemma_ends_behind(events: Seq<(u32, MidiEvent<Seq<u8>>)>, from: u32, target: u32)
    ensures
        ends_behind(timed(events, from), target) <==> due(timed(events, from), target)
            < events.len(),
{
    let queue = timed(events, from);
    let n = due(queue, target);
    if events.len() > 0 {
        lemma_event_ticks(events, from, 0);
    }
    lemma_due_events(queue, target, events.len() - 1);
    if n < events.len() {
        lemma_timed_order(events, from, n, events.len() - 1);
    }
}

} // verus!
