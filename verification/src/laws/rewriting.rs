//! Tracks that are written again, stated over status bytes and ticks.

use vstd::prelude::*;

use crate::overlap::{all_narrow, kind_bytes, narrow, raw_events, total, wrapped, FixState};
use crate::overlap::{RawEvent, RawEventKind};

verus! {

/// The velocity of a message, or 0 where it has none.
pub open spec fn velocity_of(data2: Option<u8>) -> u8 {
    match data2 {
        Some(v) => v,
        None => 0,
    }
}

/// Whether a message strikes a key of a channel with a velocity above 10.
pub open spec fn strikes_loud(kind: RawEventKind<Seq<u8>>, c: int, k: int) -> bool {
    kind matches RawEventKind::Midi { status, data1, data2 } && status == 0x90 + c && data1 == k
        && velocity_of(data2) > 10
}

/// Whether a message ends a key of a channel: a note-off, or a note-on with velocity 0.
pub open spec fn ends_key(kind: RawEventKind<Seq<u8>>, c: int, k: int) -> bool {
    kind matches RawEventKind::Midi { status, data1, data2 } && data1 == k && (status == 0x80 + c || (
    status == 0x90 + c && velocity_of(data2) == 0))
}

/// Whether a key sounds after a message.
pub open spec fn sounds_after(kind: RawEventKind<Seq<u8>>, c: int, k: int, on: bool) -> bool {
    if strikes_loud(kind, c, k) {
        true
    } else if ends_key(kind, c, k) {
        false
    } else {
        on
    }
}

/// Whether a key sounds at tick `t`: after all events up to it. The first event comes
/// after tick `now`, when the key sounds or not.
pub open spec fn sounds_at(
    events: Seq<RawEvent<Seq<u8>>>,
    now: int,
    t: int,
    c: int,
    k: int,
    on: bool,
) -> bool
    decreases events.len(),
{
    if events.len() == 0 || now + events[0].delta > t {
        on
    } else {
        sounds_at(
            events.drop_first(),
            now + events[0].delta,
            t,
            c,
            k,
            sounds_after(events[0].kind, c, k, on),
        )
    }
}

spec fn shaped(state: FixState) -> bool {
    &&& state.active.len() == 16
    &&& forall|c: int| 0 <= c < 16 ==> (#[trigger] state.active[c]).len() == 128
}

proof fn lemma_total_nonneg(events: Seq<RawEvent<Seq<u8>>>)
    ensures
        total(events) >= 0,
    decreases events.len(),
{
    if events.len() > 0 {
        lemma_total_nonneg(events.drop_first());
    }
}

/// A first event and the others, in time.
proof fn lemma_sounds_first(
    event: RawEvent<Seq<u8>>,
    rest: Seq<RawEvent<Seq<u8>>>,
    now: int,
    t: int,
    c: int,
    k: int,
    on: bool,
)
    ensures
        sounds_at(seq![event] + rest, now, t, c, k, on) == if now + event.delta > t {
            on
        } else {
            sounds_at(rest, now + event.delta, t, c, k, sounds_after(event.kind, c, k, on))
        },
{
    let all = seq![event] + rest;
    assert(all.drop_first() =~= rest);
    assert(all[0] == event);
}

/// What the rewriting does for one event: everything at the tick of the event, the keys
/// as the event leaves them.
proof fn lemma_one_event(
    state: FixState,
    event: RawEvent<Seq<u8>>,
    after: Seq<RawEvent<Seq<u8>>>,
    now: int,
    t: int,
    c: int,
    k: int,
)
    requires
        shaped(state),
        narrow(event.kind),
        0 <= c < 16,
        0 <= k < 128,
        state.pending + event.delta <= u32::MAX,
    ensures
        ({
            let out = state.out(event);
            let next = state.next(event);
            let e = now + state.pending + event.delta;
            let on = state.active[c][k];
            &&& shaped(next)
            &&& next.active[c][k] == sounds_after(event.kind, c, k, on)
            &&& out.len() == 0 ==> next.pending == state.pending + event.delta
            &&& out.len() > 0 ==> next.pending == 0
            &&& out.len() > 0 ==> sounds_at(out + after, now, t, c, k, on) == if e > t {
                on
            } else {
                sounds_at(after, e, t, c, k, next.active[c][k])
            }
        }),
{
    reveal(wrapped);
    let out = state.out(event);
    let next = state.next(event);
    let on = state.active[c][k];
    let e = now + state.pending + event.delta;
    if out.len() == 1 {
        assert(out =~= seq![out[0]]);
        lemma_sounds_first(out[0], after, now, t, c, k, on);
    } else if out.len() == 2 {
        assert(out + after =~= seq![out[0]] + (seq![out[1]] + after));
        lemma_sounds_first(out[0], seq![out[1]] + after, now, t, c, k, on);
        lemma_sounds_first(
            out[1],
            after,
            e,
            t,
            c,
            k,
            sounds_after(out[0].kind, c, k, on),
        );
    }
}

proof fn lemma_same_from(
    state: FixState,
    events: Seq<RawEvent<Seq<u8>>>,
    now: int,
    t: int,
    c: int,
    k: int,
)
    requires
        shaped(state),
        all_narrow(events),
        0 <= c < 16,
        0 <= k < 128,
        state.pending + total(events) <= u32::MAX,
    ensures
        sounds_at(state.fixed(events), now, t, c, k, state.active[c][k]) == sounds_at(
            events,
            now + state.pending,
            t,
            c,
            k,
            state.active[c][k],
        ),
    decreases events.len(),
{
    if events.len() > 0 {
        let event = events[0];
        let rest = events.drop_first();
        let out = state.out(event);
        let next = state.next(event);
        let after = next.fixed(rest);
        assert(narrow(event.kind));
        assert forall|i: int| 0 <= i < rest.len() implies narrow((#[trigger] rest[i]).kind) by {
            assert(rest[i] == events[i + 1]);
        }
        lemma_total_nonneg(rest);
        lemma_one_event(state, event, after, now, t, c, k);
        let e = now + state.pending + event.delta;
        if out.len() > 0 {
            lemma_same_from(next, rest, e, t, c, k);
        } else {
            lemma_same_from(next, rest, now, t, c, k);
            assert(out + after =~= after);
            assert(strikes_loud(event.kind, c, k) ==> out.len() > 0);
        }
    }
}

/// At every tick the same keys sound in a track that was written again as in the track
/// without its quiet notes: struck with a velocity above 10 and not ended since, by a
/// note-off or by a note-on with velocity 0.
pub proof fn lemma_same_keys_sound(events: Seq<RawEvent<Seq<u8>>>, t: int, c: int, k: int)
    requires
        all_narrow(events),
        total(events) <= u32::MAX,
        0 <= c < 16,
        0 <= k < 128,
    ensures
        sounds_at(FixState::start().fixed(events), 0, t, c, k, false) == sounds_at(
            events,
            0,
            t,
            c,
            k,
            false,
        ),
{
    let start = FixState::start();
    assert(start.active[c][k] == false);
    lemma_same_from(start, events, 0, t, c, k);
}

/// Whether a message is a note-on with a velocity for a key of a channel.
pub open spec fn strikes_any(kind: RawEventKind<Seq<u8>>, c: int, k: int) -> bool {
    kind matches RawEventKind::Midi { status, data1, data2 } && status == 0x90 + c && data1 == k
        && velocity_of(data2) > 0
}

/// Whether a key is only struck with a velocity above 10 and while it does not sound,
/// and only ended while it does.
pub open spec fn tidy(events: Seq<RawEvent<Seq<u8>>>, c: int, k: int, on: bool) -> bool
    decreases events.len(),
{
    events.len() > 0 ==> {
        let kind = events[0].kind;
        &&& strikes_any(kind, c, k) ==> strikes_loud(kind, c, k) && !on
        &&& ends_key(kind, c, k) ==> on
        &&& tidy(events.drop_first(), c, k, sounds_after(kind, c, k, on))
    }
}

proof fn lemma_tidy_first(
    event: RawEvent<Seq<u8>>,
    rest: Seq<RawEvent<Seq<u8>>>,
    c: int,
    k: int,
    on: bool,
)
    ensures
        tidy(seq![event] + rest, c, k, on) == {
            &&& strikes_any(event.kind, c, k) ==> strikes_loud(event.kind, c, k) && !on
            &&& ends_key(event.kind, c, k) ==> on
            &&& tidy(rest, c, k, sounds_after(event.kind, c, k, on))
        },
{
    let all = seq![event] + rest;
    assert(all.drop_first() =~= rest);
    assert(all[0] == event);
}

proof fn lemma_tidy_from(state: FixState, events: Seq<RawEvent<Seq<u8>>>, c: int, k: int)
    requires
        shaped(state),
        all_narrow(events),
        0 <= c < 16,
        0 <= k < 128,
    ensures
        tidy(state.fixed(events), c, k, state.active[c][k]),
    decreases events.len(),
{
    if events.len() > 0 {
        let event = events[0];
        let rest = events.drop_first();
        let out = state.out(event);
        let next = state.next(event);
        let after = next.fixed(rest);
        let on = state.active[c][k];
        assert(narrow(event.kind));
        assert forall|i: int| 0 <= i < rest.len() implies narrow((#[trigger] rest[i]).kind) by {
            assert(rest[i] == events[i + 1]);
        }
        lemma_tidy_from(next, rest, c, k);
        if out.len() == 1 {
            assert(out =~= seq![out[0]]);
            lemma_tidy_first(out[0], after, c, k, on);
        } else if out.len() == 2 {
            assert(out + after =~= seq![out[0]] + (seq![out[1]] + after));
            lemma_tidy_first(out[0], seq![out[1]] + after, c, k, on);
            lemma_tidy_first(out[1], after, c, k, sounds_after(out[0].kind, c, k, on));
        } else {
            assert(out + after =~= after);
        }
    }
}

/// In a track that was written again no key is struck while it sounds, none is ended
/// that does not sound, and none is struck with a velocity of 10 or less.
pub proof fn lemma_rewritten_is_tidy(events: Seq<RawEvent<Seq<u8>>>, c: int, k: int)
    requires
        all_narrow(events),
        0 <= c < 16,
        0 <= k < 128,
    ensures
        tidy(FixState::start().fixed(events), c, k, false),
{
    lemma_tidy_from(FixState::start(), events, c, k);
}

/// Whether an event is no note message, or strikes a note with a velocity above 10.
pub open spec fn stays(kind: RawEventKind<Seq<u8>>) -> bool {
    match kind {
        RawEventKind::Midi { status, data2, .. } => {
            ||| status < 0x80 || status > 0x9F
            ||| status >= 0x90 && velocity_of(data2) > 10
        },
        _ => true,
    }
}

/// The events that stay, with their ticks. The first event comes after tick `now`.
pub open spec fn staying(events: Seq<RawEvent<Seq<u8>>>, now: int) -> Seq<
    (int, RawEventKind<Seq<u8>>),
>
    decreases events.len(),
{
    if events.len() == 0 {
        seq![]
    } else {
        let e = now + events[0].delta;
        let rest = staying(events.drop_first(), e);
        if stays(events[0].kind) {
            seq![(e, events[0].kind)] + rest
        } else {
            rest
        }
    }
}

proof fn lemma_staying_first(event: RawEvent<Seq<u8>>, rest: Seq<RawEvent<Seq<u8>>>, now: int)
    ensures
        staying(seq![event] + rest, now) == if stays(event.kind) {
            seq![(now + event.delta, event.kind)] + staying(rest, now + event.delta)
        } else {
            staying(rest, now + event.delta)
        },
{
    let all = seq![event] + rest;
    assert(all.drop_first() =~= rest);
    assert(all[0] == event);
}

proof fn lemma_staying_from(state: FixState, events: Seq<RawEvent<Seq<u8>>>, now: int)
    requires
        all_narrow(events),
        state.pending + total(events) <= u32::MAX,
    ensures
        staying(state.fixed(events), now) == staying(events, now + state.pending),
    decreases events.len(),
{
    if events.len() > 0 {
        reveal(wrapped);
        let event = events[0];
        let rest = events.drop_first();
        let out = state.out(event);
        let next = state.next(event);
        let after = next.fixed(rest);
        let e = now + state.pending + event.delta;
        assert(narrow(event.kind));
        assert forall|i: int| 0 <= i < rest.len() implies narrow((#[trigger] rest[i]).kind) by {
            assert(rest[i] == events[i + 1]);
        }
        lemma_total_nonneg(rest);
        if out.len() > 0 {
            lemma_staying_from(next, rest, e);
        } else {
            lemma_staying_from(next, rest, now);
            assert(out + after =~= after);
        }
        if out.len() == 1 {
            assert(out =~= seq![out[0]]);
            lemma_staying_first(out[0], after, now);
        } else if out.len() == 2 {
            assert(out + after =~= seq![out[0]] + (seq![out[1]] + after));
            lemma_staying_first(out[0], seq![out[1]] + after, now);
            lemma_staying_first(out[1], after, e);
        }
    }
}

/// Every note struck with a velocity above 10 and every event that is no note message
/// stands in a track that was written again as it did, at its tick and in its order,
/// and there are no others.
pub proof fn lemma_events_stay(events: Seq<RawEvent<Seq<u8>>>)
    requires
        all_narrow(events),
        total(events) <= u32::MAX,
    ensures
        staying(FixState::start().fixed(events), 0) == staying(events, 0),
{
    lemma_staying_from(FixState::start(), events, 0);
}

/// What is written for the end of a key that sounds: the note-off as it stands, or a
/// note-on with velocity 0 where the velocity is 0. For a key that does not sound
/// nothing is written.
pub proof fn lemma_end_written(state: FixState, delta: u32, c: u8, k: u8, v: u8)
    requires
        c < 16,
        k < 128,
        state.pending + delta <= u32::MAX,
    ensures
        ({
            let off = RawEventKind::Midi { status: (0x80 + c) as u8, data1: k, data2: Some(v) };
            let zero = RawEventKind::Midi { status: (0x90 + c) as u8, data1: k, data2: Some(0u8) };
            let time = (state.pending + delta) as u32;
            let written = if !state.active[c as int][k as int] {
                seq![]
            } else if v > 0 {
                seq![RawEvent { delta: time, kind: off }]
            } else {
                seq![RawEvent { delta: time, kind: zero }]
            };
            &&& state.out(RawEvent { delta, kind: off }) == written
            &&& v == 0 ==> state.out(RawEvent { delta, kind: zero }) == written
        }),
{
    reveal(wrapped);
}

/// How a message is written: its status byte, unless it is that of the message before,
/// and its data bytes; a system message without data is its status byte alone.
pub proof fn lemma_message_written(status: u8, d1: u8, d2: u8, running: Option<u8>)
    requires
        status >= 0x80,
    ensures
        ({
            let two = RawEventKind::Midi { status, data1: d1, data2: Some(d2) };
            let one = RawEventKind::Midi { status, data1: d1, data2: None };
            &&& status < 0xF4 && status != 0xF0 && running != Some(status) ==> kind_bytes(two, running)
                == seq![status, d1, d2] && kind_bytes(one, running) == seq![status, d1]
            &&& status < 0xF4 && status != 0xF0 && running == Some(status) ==> kind_bytes(two, running)
                == seq![d1, d2] && kind_bytes(one, running) == seq![d1]
            &&& status >= 0xF4 ==> kind_bytes(one, running) == seq![status]
        }),
{
    let two: RawEventKind<Seq<u8>> = RawEventKind::Midi { status, data1: d1, data2: Some(d2) };
    let one: RawEventKind<Seq<u8>> = RawEventKind::Midi { status, data1: d1, data2: None };
    if status >= 0xF4 {
    } else if running != Some(status) {
        assert(kind_bytes(two, running) =~= if status == 0xF0 {
            seq![status]
        } else {
            seq![status, d1, d2]
        });
        assert(kind_bytes(one, running) =~= if status == 0xF0 {
            seq![status]
        } else {
            seq![status, d1]
        });
    } else if status != 0xF0 {
        assert(kind_bytes(two, running) =~= seq![d1, d2]);
        assert(kind_bytes(one, running) =~= seq![d1]);
    }
}

/// The same of the bytes of a track, where every message of it is one of a channel with
/// a first data byte below 0x80 or one without data, and all its delta times together fit
/// 28 bits: reading the track that was written, the same keys sound at every tick, no
/// key is struck while it sounds, and all other events stand at their ticks.
pub proof fn lemma_track_written(d: Seq<u8>, t: int, c: int, k: int)
    requires
        all_narrow(raw_events(d, None)),
        crate::overlap::all_plain(raw_events(d, None)),
        total(raw_events(d, None)) < 0x1000_0000,
        0 <= c < 16,
        0 <= k < 128,
    ensures
        ({
            let before = raw_events(d, None);
            let after = raw_events(crate::overlap::track_content(d), None);
            &&& sounds_at(after, 0, t, c, k, false) == sounds_at(before, 0, t, c, k, false)
            &&& tidy(after, c, k, false)
            &&& staying(after, 0) == staying(before, 0)
        }),
{
    let before = raw_events(d, None);
    crate::overlap::lemma_plain_reads_back(d);
    lemma_same_keys_sound(before, t, c, k);
    lemma_rewritten_is_tidy(before, c, k);
    lemma_events_stay(before);
}

/// Ticks count on from 0 behind the greatest tick.
pub proof fn lemma_ticks_wrap(tick: u32, delta: u32)
    ensures
        wrapped(tick, delta) == if tick + delta <= u32::MAX {
            tick + delta
        } else {
            tick + delta - 0x1_0000_0000
        },
{
    reveal(wrapped);
}

} // verus!
