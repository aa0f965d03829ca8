//! The notes and tempo changes of a file.
//!
//! A tempo change is a tick with the microseconds of a quarter note from there on.

use vstd::prelude::*;

use crate::bytes::{be24, read_be24};
use crate::cue::{last_tick, later, strikes, tempos, Cue};
use crate::error::Error;
use crate::event::{MetaMessage, MidiMessage, TrackEvent, TrackEventKind};
use crate::fast_midi::{at_starts, header_of, iter_tracks_from_data, parse_header, tracks_from};
use crate::fast_midi::{ends_cut, lemma_step, track_events, MidiEvent, TrackIter};
use crate::index::{last_end, NoteIndex};
use crate::mmap::MmapEventIter;
use crate::note::{in_order, sort_by_tick, PackedNote, Ticked};
use crate::smf::Smf;

verus! {

/// The tempo where none is given: 120 quarter notes in a minute.
pub const DEFAULT_TEMPO: u32 = 500_000;

/// What is known of a track after some of its cues.
pub struct NoteState {
    /// The notes that have ended, in the order in which they ended.
    pub notes: Seq<PackedNote>,
    /// The tempo changes so far.
    pub tempos: Seq<(u32, u32)>,
    /// For each of the 128 keys, since when and how hard it is held.
    pub active: Seq<Option<(u32, u8)>>,
    /// The tick of the last cue.
    pub tick: u32,
    /// The number of the track.
    pub track: u16,
}

impl NoteState {
    /// Before the first cue.
    pub open spec fn start(track: u16) -> NoteState {
        NoteState {
            notes: seq![],
            tempos: seq![],
            active: Seq::new(128, |i: int| None),
            tick: 0,
            track,
        }
    }

    /// A held key is let go: its note ends here.
    pub open spec fn close(self, key: u8) -> NoteState {
        match self.active[key as int] {
            Some((start_tick, velocity)) if key < 128 => NoteState {
                notes: self.notes.push(
                    PackedNote::of(start_tick, self.tick, key, velocity, self.track),
                ),
                active: self.active.update(key as int, None),
                ..self
            },
            _ => self,
        }
    }

    /// Time passes.
    pub open spec fn wait(self, delta: u32) -> NoteState {
        NoteState { tick: later(self.tick, delta), ..self }
    }

    /// A key below 128 is struck. Where it is still held, its note ends first.
    pub open spec fn strike(self, key: u8, velocity: u8) -> NoteState {
        if key < 128 {
            let closed = self.close(key);
            NoteState {
                active: closed.active.update(key as int, Some((self.tick, velocity))),
                ..closed
            }
        } else {
            self
        }
    }

    /// The next cue, after `delta` ticks.
    pub open spec fn step(self, delta: u32, cue: Cue) -> NoteState {
        let now = self.wait(delta);
        match cue {
            Cue::Strike { key, velocity } => now.strike(key, velocity),
            Cue::Release { key } => now.close(key),
            Cue::Tempo { microseconds } => NoteState {
                tempos: now.tempos.push((now.tick, microseconds)),
                ..now
            },
            Cue::Other => now,
        }
    }

    /// All the cues in turn.
    pub open spec fn run(self, cues: Seq<(u32, Cue)>) -> NoteState
        decreases cues.len(),
    {
        if cues.len() == 0 {
            self
        } else {
            self.step(cues[0].0, cues[0].1).run(cues.drop_first())
        }
    }

    /// The keys from `key` up are let go in turn.
    pub open spec fn close_from(self, key: int) -> NoteState
        decreases 128 - key,
    {
        if key >= 128 || key < 0 {
            self
        } else {
            self.close(key as u8).close_from(key + 1)
        }
    }
}

/// The notes of a track with these cues. Keys that are still held at the end are
/// let go there, the low ones first.
pub open spec fn track_notes(cues: Seq<(u32, Cue)>, track: u16) -> Seq<PackedNote> {
    NoteState::start(track).run(cues).close_from(0).notes
}

/// What an event of the track reader means for the notes.
pub open spec fn cue_of(event: MidiEvent<Seq<u8>>) -> Cue {
    match event {
        MidiEvent::NoteOn { key, velocity, .. } => if velocity > 0 {
            Cue::Strike { key, velocity }
        } else {
            Cue::Release { key }
        },
        MidiEvent::NoteOff { key, .. } => Cue::Release { key },
        MidiEvent::Meta { event_type, data } => if event_type == 0x51 && data.len() == 3 && be24(
            data,
            0,
        ) > 0 {
            Cue::Tempo { microseconds: be24(data, 0) }
        } else {
            Cue::Other
        },
        _ => Cue::Other,
    }
}

/// What an event of a parsed file means for the notes.
pub open spec fn cue_of_event(event: TrackEvent<Seq<u8>>) -> Cue {
    match event.kind {
        TrackEventKind::Midi { message: MidiMessage::NoteOn { key, vel }, .. } => if vel.value()
            > 0 {
            Cue::Strike { key, velocity: vel.value() }
        } else {
            Cue::Release { key }
        },
        TrackEventKind::Midi { message: MidiMessage::NoteOff { key, .. }, .. } => Cue::Release {
            key,
        },
        TrackEventKind::Meta(MetaMessage::Tempo(tempo)) => if tempo.value() > 0 {
            Cue::Tempo { microseconds: tempo.value() }
        } else {
            Cue::Other
        },
        _ => Cue::Other,
    }
}

/// The cues of what a track reader gives.
pub open spec fn cues_of(events: Seq<(u32, MidiEvent<Seq<u8>>)>) -> Seq<(u32, Cue)> {
    Seq::new(events.len(), |i: int| (events[i].0, cue_of(events[i].1)))
}

/// The cues of the bytes of a track.
pub open spec fn cues_of_bytes(s: Seq<u8>) -> Seq<(u32, Cue)> {
    cues_of(track_events(s, 0, None))
}

/// The cues of a track of a parsed file.
pub open spec fn cues_of_track(track: Seq<TrackEvent<Vec<u8>>>) -> Seq<(u32, Cue)> {
    Seq::new(track.len(), |i: int| (track[i].delta.value(), cue_of_event(track[i]@)))
}

/// The notes of the first `n` tracks, one track after the other.
pub open spec fn all_notes(tracks: Seq<Seq<(u32, Cue)>>, n: int) -> Seq<PackedNote>
    decreases n,
{
    if n <= 0 {
        seq![]
    } else {
        all_notes(tracks, n - 1) + track_notes(tracks[n - 1], ((n - 1) % 0x1_0000) as u16)
    }
}

/// The tempo changes of the first `n` tracks, one track after the other.
pub open spec fn all_tempos(tracks: Seq<Seq<(u32, Cue)>>, n: int) -> Seq<(u32, u32)>
    decreases n,
{
    if n <= 0 {
        seq![]
    } else {
        all_tempos(tracks, n - 1) + tempos(tracks[n - 1], 0)
    }
}

/// The first change at `tick`.
pub open spec fn first_at(changes: Seq<(u32, u32)>, tick: u32) -> Option<(u32, u32)>
    decreases changes.len(),
{
    if changes.len() == 0 {
        None
    } else if changes[0].0 == tick {
        Some(changes[0])
    } else {
        first_at(changes.drop_first(), tick)
    }
}

/// Whether some change stands at `tick`.
pub open spec fn changes_at(changes: Seq<(u32, u32)>, tick: u32) -> bool {
    exists|i: int| 0 <= i < changes.len() && (#[trigger] changes[i]).0 == tick
}

/// Whether `r` is the tempo list of a file with these changes: one entry for
/// each tick with a change, the first change there, in the order of the ticks.
/// Where nothing changes at tick 0, the default tempo stands there.
pub open spec fn tempo_list(changes: Seq<(u32, u32)>, r: Seq<(u32, u32)>) -> bool {
    let all = changes.push((0u32, DEFAULT_TEMPO));
    &&& forall|i: int, j: int| 0 <= i < j < r.len() ==> (#[trigger] r[i]).0 < (#[trigger] r[j]).0
    &&& forall|i: int| 0 <= i < r.len() ==> first_at(all, (#[trigger] r[i]).0) == Some(r[i])
    &&& forall|k: int| 0 <= k < all.len() ==> changes_at(r, (#[trigger] all[k]).0)
}

/// Collects the notes and tempo changes of one track.
#[derive(Debug)]
struct NoteAccumulator {
    notes: Vec<PackedNote>,
    tempo_changes: Vec<(u32, u32)>,
    active_notes: [Option<(u32, u8)>; 128],
    current_tick: u32,
    track_idx: u16,
}

impl NoteAccumulator {
    spec fn state(self) -> NoteState {
        NoteState {
            notes: self.notes@,
            tempos: self.tempo_changes@,
            active: self.active_notes@,
            tick: self.current_tick,
            track: self.track_idx,
        }
    }

    fn new(track_idx: u16) -> (r: NoteAccumulator)
        ensures
            r.state() == NoteState::start(track_idx),
    {
        let r = NoteAccumulator {
            notes: Vec::with_capacity(512),
            tempo_changes: Vec::new(),
            active_notes: [None; 128],
            current_tick: 0,
            track_idx,
        };
        assert(r.active_notes@ =~= NoteState::start(track_idx).active);
        r
    }

    fn advance(&mut self, delta: u32)
        ensures
            final(self).state() == old(self).state().wait(delta),
    {
        self.current_tick = self.current_tick.saturating_add(delta);
    }

    fn note_on(&mut self, key: u8, velocity: u8)
        ensures
            final(self).state() == if velocity > 0 {
                old(self).state().strike(key, velocity)
            } else {
                old(self).state().close(key)
            },
    {
        self.note_off(key);
        if key < 128 && velocity > 0 {
            self.active_notes[key as usize] = Some((self.current_tick, velocity));
        }
    }

    fn note_off(&mut self, key: u8)
        ensures
            final(self).state() == old(self).state().close(key),
    {
        if key >= 128 {
            return;
        }
        if let Some((start_tick, velocity)) = self.active_notes[key as usize] {
            self.active_notes[key as usize] = None;
            self.notes.push(
                PackedNote::new(start_tick, self.current_tick, key, velocity, self.track_idx),
            );
        }
    }

    fn tempo_microseconds(&mut self, microseconds: u32)
        ensures
            final(self).state() == if microseconds > 0 {
                NoteState {
                    tempos: old(self).state().tempos.push((old(self).state().tick, microseconds)),
                    ..old(self).state()
                }
            } else {
                old(self).state()
            },
    {
        if microseconds > 0 {
            self.tempo_changes.push((self.current_tick, microseconds));
        }
    }

    fn finish(self) -> (r: (Vec<PackedNote>, Vec<(u32, u32)>))
        ensures
            r.0@ == self.state().close_from(0).notes,
            r.1@ == self.state().tempos,
    {
        let mut acc = self;
        let mut key: u8 = 0;
        while key < 128
            invariant
                key <= 128,
                acc.state().close_from(key as int) == self.state().close_from(0),
                acc.state().tempos == self.state().tempos,
            decreases 128 - key,
        {
            acc.note_off(key);
            key += 1;
        }
        (acc.notes, acc.tempo_changes)
    }
}

/// A place in a track, with the keys that are held there.
#[derive(Debug)]
pub struct NoteTrackCursor<'a> {
    events: MmapEventIter<'a>,
    active_notes: [Option<(u32, u8)>; 128],
    current_tick: u32,
    track_idx: u16,
}

impl<'a> NoteTrackCursor<'a> {
    /// The notes of the track at this place.
    pub closed spec fn state(self) -> NoteState {
        NoteState {
            notes: seq![],
            tempos: seq![],
            active: self.active_notes@,
            tick: self.current_tick,
            track: self.track_idx,
        }
    }

    /// The events behind this place.
    pub closed spec fn events(self) -> MmapEventIter<'a> {
        self.events
    }

    /// A cursor at the start of a track, in front of `events`.
    pub fn new(events: MmapEventIter<'a>, track_idx: u16) -> (r: NoteTrackCursor<'a>)
        ensures
            r.state() == NoteState::start(track_idx),
            r.events() == events,
    {
        let r = NoteTrackCursor { events, active_notes: [None; 128], current_tick: 0, track_idx };
        assert(r.active_notes@ =~= NoteState::start(track_idx).active);
        r
    }

    /// The tick of the cursor.
    pub fn current_tick(&self) -> (r: u32)
        ensures
            r == self.state().tick,
    {
        self.current_tick
    }

    /// Lets go of all held keys and returns their notes, the low keys first.
    pub fn close_all_notes(&mut self) -> (r: Vec<PackedNote>)
        ensures
            r@ == old(self).state().close_from(0).notes,
            final(self).state() == (NoteState {
                active: Seq::new(128, |i: int| None),
                ..old(self).state()
            }),
            final(self).events() == old(self).events(),
    {
        let mut completed: Vec<PackedNote> = Vec::new();
        let ghost before = self.state();
        let mut key: u8 = 0;
        while key < 128
            invariant
                key <= 128,
                before == old(self).state(),
                self.current_tick == before.tick,
                self.track_idx == before.track,
                self.events == old(self).events,
                forall|i: int| 0 <= i < key ==> (#[trigger] self.active_notes@[i]) is None,
                before.close_from(0) == (NoteState {
                    notes: completed@,
                    active: self.active_notes@,
                    ..before
                }).close_from(key as int),
            decreases 128 - key,
        {
            if let Some((start_tick, velocity)) = self.active_notes[key as usize] {
                self.active_notes[key as usize] = None;
                completed.push(
                    PackedNote::new(start_tick, self.current_tick, key, velocity, self.track_idx),
                );
            }
            key += 1;
        }
        assert(self.active_notes@ =~= Seq::new(128, |i: int| None));
        completed
    }
}

/// Taking the first cue by itself makes no difference.
proof fn lemma_run_first(state: NoteState, delta: u32, cue: Cue, rest: Seq<(u32, Cue)>)
    ensures
        state.run(seq![(delta, cue)] + rest) == state.step(delta, cue).run(rest),
{
    let cues = seq![(delta, cue)] + rest;
    assert(cues.drop_first() =~= rest);
    assert(cues[0] == (delta, cue));
}

/// The tempo changes of a run are those of its cues.
proof fn lemma_run_tempos(state: NoteState, cues: Seq<(u32, Cue)>)
    ensures
        state.run(cues).tempos == state.tempos + tempos(cues, state.tick),
    decreases cues.len(),
{
    if cues.len() > 0 {
        let next = state.step(cues[0].0, cues[0].1);
        lemma_run_tempos(next, cues.drop_first());
        assert(next.tick == later(state.tick, cues[0].0));
    }
    assert(state.run(cues).tempos =~= state.tempos + tempos(cues, state.tick));
}

/// The notes and tempo changes of a track of a parsed file.
pub fn parse_track_notes(track: &[TrackEvent<Vec<u8>>], track_idx: u16) -> (r: (
    Vec<PackedNote>,
    Vec<(u32, u32)>,
))
    ensures
        r.0@ == track_notes(cues_of_track(track@), track_idx),
        r.1@ == tempos(cues_of_track(track@), 0),
{
    let mut acc = NoteAccumulator::new(track_idx);
    let ghost start = acc.state();
    let ghost cues = cues_of_track(track@);
    let mut i: usize = 0;
    assert(cues.skip(0) =~= cues);
    while i < track.len()
        invariant
            i <= track@.len(),
            cues == cues_of_track(track@),
            acc.state().run(cues.skip(i as int)) == start.run(cues),
        decreases track@.len() - i,
    {
        let event = &track[i];
        let delta: u32 = event.delta.as_int();
        let ghost before = acc.state();
        proof {
            assert(cues.skip(i as int) =~= seq![cues[i as int]] + cues.skip(i + 1));
            lemma_run_first(before, delta, cue_of_event(event@), cues.skip(i + 1));
        }
        acc.advance(delta);
        match &event.kind {
            TrackEventKind::Midi { channel: _, message } => match message {
                MidiMessage::NoteOn { key, vel } => acc.note_on(*key, vel.as_int()),
                MidiMessage::NoteOff { key, vel: _ } => acc.note_off(*key),
                _ => {},
            },
            TrackEventKind::Meta(MetaMessage::Tempo(tempo)) => {
                acc.tempo_microseconds(tempo.as_int());
            },
            _ => {},
        }
        assert(acc.state() == before.step(delta, cue_of_event(event@)));
        i += 1;
    }
    assert(cues.skip(i as int) =~= seq![]);
    proof {
        lemma_run_tempos(start, cues);
        assert(start.tempos + tempos(cues, 0) =~= tempos(cues, 0));
    }
    acc.finish()
}

/// The notes and tempo changes that a track reader still comes to.
///
/// It must not come to a meta event that is cut off behind its status byte;
/// [`TrackIter::is_cut`] tells.
pub fn parse_fast_track_notes(events: TrackIter, track_idx: u16) -> (r: (
    Vec<PackedNote>,
    Vec<(u32, u32)>,
))
    requires
        !events.cut(),
    ensures
        r.0@ == track_notes(cues_of(events.events()), track_idx),
        r.1@ == tempos(cues_of(events.events()), 0),
{
    proof {
        use_type_invariant(&events);
    }
    let mut iter = events;
    let mut acc = NoteAccumulator::new(track_idx);
    let ghost start = acc.state();
    let ghost cues = cues_of(events.events());
    loop
        invariant_except_break
            !iter.cut(),
            0 <= iter.position() <= iter.bytes().len(),
            acc.state().run(cues_of(iter.events())) == start.run(cues),
        ensures
            acc.state() == start.run(cues),
        decreases iter.bytes().len() - iter.position(),
    {
        let ghost left = iter.events();
        proof {
            lemma_step(iter.bytes(), iter.position(), iter.status());
        }
        match iter.next_event() {
            None => {
                assert(cues_of(left) =~= seq![]);
                break;
            },
            Some((delta, event)) => {
                let ghost before = acc.state();
                let ghost cue = cue_of(event@);
                proof {
                    assert(cues_of(left) =~= seq![(delta, cue)] + cues_of(iter.events()));
                    lemma_run_first(before, delta, cue, cues_of(iter.events()));
                }
                acc.advance(delta);
                match event {
                    MidiEvent::NoteOn { key, velocity, .. } => acc.note_on(key, velocity),
                    MidiEvent::NoteOff { key, .. } => acc.note_off(key),
                    MidiEvent::Meta { event_type, data } => if event_type == 0x51 && data.len()
                        == 3 {
                        acc.tempo_microseconds(read_be24(data, 0));
                    },
                    _ => {},
                }
                assert(acc.state() == before.step(delta, cue));
            },
        }
    }
    proof {
        lemma_run_tempos(start, cues);
        assert(start.tempos + tempos(cues, 0) =~= tempos(cues, 0));
    }
    acc.finish()
}

/// The notes of the first `n` results, one after the other.
pub open spec fn joined_notes(results: Seq<(Vec<PackedNote>, Vec<(u32, u32)>)>, n: int) -> Seq<
    PackedNote,
>
    decreases n,
{
    if n <= 0 {
        seq![]
    } else {
        joined_notes(results, n - 1) + results[n - 1].0@
    }
}

/// The tempo changes of the first `n` results, one after the other.
pub open spec fn joined_tempos(results: Seq<(Vec<PackedNote>, Vec<(u32, u32)>)>, n: int) -> Seq<
    (u32, u32),
>
    decreases n,
{
    if n <= 0 {
        seq![]
    } else {
        joined_tempos(results, n - 1) + results[n - 1].1@
    }
}

/// Whether some change stands at `tick`.
fn has_tick(changes: &Vec<(u32, u32)>, tick: u32) -> (r: bool)
    ensures
        r == changes_at(changes@, tick),
{
    let mut i: usize = 0;
    while i < changes.len()
        invariant
            i <= changes@.len(),
            forall|k: int| 0 <= k < i ==> (#[trigger] changes@[k]).0 != tick,
        decreases changes@.len() - i,
    {
        if changes[i].0 == tick {
            assert(changes@[i as int].0 == tick);
            return true;
        }
        i += 1;
    }
    false
}

/// Whether `kept` holds the first of `changes` at each tick, once.
spec fn firsts(changes: Seq<(u32, u32)>, kept: Seq<(u32, u32)>) -> bool {
    &&& forall|i: int, j: int|
        0 <= i < j < kept.len() ==> (#[trigger] kept[i]).0 != (#[trigger] kept[j]).0
    &&& forall|i: int|
        0 <= i < kept.len() ==> first_at(changes, (#[trigger] kept[i]).0) == Some(kept[i])
    &&& forall|k: int| 0 <= k < changes.len() ==> changes_at(kept, (#[trigger] changes[k]).0)
}

/// The first change at a tick stays the first when more follow; a tick without
/// one gets the new one.
proof fn lemma_first_push(changes: Seq<(u32, u32)>, change: (u32, u32), tick: u32)
    ensures
        first_at(changes.push(change), tick) == match first_at(changes, tick) {
            Some(c) => Some(c),
            None => if change.0 == tick {
                Some(change)
            } else {
                None
            },
        },
    decreases changes.len(),
{
    let more = changes.push(change);
    if changes.len() == 0 {
        assert(more.drop_first() =~= seq![]);
        assert(first_at(more.drop_first(), tick) is None);
    } else {
        assert(more.drop_first() =~= changes.drop_first().push(change));
        lemma_first_push(changes.drop_first(), change, tick);
    }
}

/// There is a first change at a tick exactly where there is a change at it.
proof fn lemma_first_some(changes: Seq<(u32, u32)>, tick: u32)
    ensures
        first_at(changes, tick) is Some <==> changes_at(changes, tick),
    decreases changes.len(),
{
    if changes.len() > 0 {
        let rest = changes.drop_first();
        lemma_first_some(rest, tick);
        if changes[0].0 != tick {
            if changes_at(changes, tick) {
                let i = choose|i: int| 0 <= i < changes.len() && (#[trigger] changes[i]).0 == tick;
                assert(rest[i - 1].0 == tick);
            }
            if changes_at(rest, tick) {
                let k = choose|k: int| 0 <= k < rest.len() && (#[trigger] rest[k]).0 == tick;
                assert(changes[k + 1].0 == tick);
            }
        }
    }
}

/// Keeps `change` where nothing was kept at its tick.
fn keep_first(
    kept: &mut Vec<(u32, u32)>,
    change: (u32, u32),
    Ghost(changes): Ghost<Seq<(u32, u32)>>,
)
    requires
        firsts(changes, old(kept)@),
    ensures
        firsts(changes.push(change), final(kept)@),
{
    let ghost before = kept@;
    let ghost more = changes.push(change);
    let known: bool = has_tick(kept, change.0);
    if !known {
        kept.push(change);
    }
    proof {
        lemma_first_some(changes, change.0);
        if known {
            let i = choose|i: int| 0 <= i < before.len() && (#[trigger] before[i]).0 == change.0;
            assert(first_at(changes, before[i].0) == Some(before[i]));
        } else if changes_at(changes, change.0) {
            let k = choose|k: int| 0 <= k < changes.len() && (#[trigger] changes[k]).0 == change.0;
            assert(changes_at(before, changes[k].0));
        }
        assert forall|i: int| 0 <= i < kept@.len() implies first_at(more, (#[trigger] kept@[i]).0)
            == Some(kept@[i]) by {
            lemma_first_push(changes, change, kept@[i].0);
            if i < before.len() {
                assert(kept@[i] == before[i]);
            }
        }
        assert forall|i: int, j: int| 0 <= i < j < kept@.len() implies (#[trigger] kept@[i]).0 != (
        #[trigger] kept@[j]).0 by {
            assert(kept@[i] == before[i]);
            if j < before.len() {
                assert(kept@[j] == before[j]);
            }
        }
        assert forall|k: int| 0 <= k < more.len() implies changes_at(
            kept@,
            (#[trigger] more[k]).0,
        ) by {
            let tick = more[k].0;
            if k < changes.len() {
                assert(more[k] == changes[k]);
            }
            if k < changes.len() || known {
                let i = choose|i: int| 0 <= i < before.len() && (#[trigger] before[i]).0 == tick;
                assert(kept@[i].0 == tick);
            } else {
                assert(kept@[before.len() as int].0 == tick);
            }
        }
    }
}

/// Sorting the first changes gives the tempo list.
proof fn lemma_sorted_firsts(changes: Seq<(u32, u32)>, kept: Seq<(u32, u32)>, r: Seq<(u32, u32)>)
    requires
        firsts(changes.push((0u32, DEFAULT_TEMPO)), kept),
        r.to_multiset() == kept.to_multiset(),
        in_order(r),
    ensures
        tempo_list(changes, r),
{
    broadcast use vstd::seq_lib::group_to_multiset_ensures;

    let all = changes.push((0u32, DEFAULT_TEMPO));
    assert(kept.no_duplicates());
    kept.lemma_multiset_has_no_duplicates();
    r.lemma_multiset_has_no_duplicates_conv();
    assert forall|i: int| 0 <= i < r.len() implies first_at(all, (#[trigger] r[i]).0) == Some(
        r[i],
    ) by {
        assert(r.contains(r[i]));
        assert(r.to_multiset().count(r[i]) > 0);
        assert(kept.contains(r[i]));
        let k = choose|k: int| 0 <= k < kept.len() && kept[k] == r[i];
        assert(first_at(all, kept[k].0) == Some(kept[k]));
    }
    assert forall|i: int, j: int| 0 <= i < j < r.len() implies (#[trigger] r[i]).0 < (
    #[trigger] r[j]).0 by {
        assert(r[i].ticked() <= r[j].ticked());
        assert(first_at(all, r[i].0) == Some(r[i]));
        assert(first_at(all, r[j].0) == Some(r[j]));
        assert(r[i] != r[j]);
    }
    assert forall|k: int| 0 <= k < all.len() implies changes_at(r, (#[trigger] all[k]).0) by {
        let i = choose|i: int| 0 <= i < kept.len() && (#[trigger] kept[i]).0 == all[k].0;
        assert(kept.contains(kept[i]));
        assert(kept.to_multiset().count(kept[i]) > 0);
        assert(r.contains(kept[i]));
        let j = choose|j: int| 0 <= j < r.len() && r[j] == kept[i];
        assert(r[j].0 == all[k].0);
    }
}

/// Puts the results of the tracks together, in the order of the tracks.
pub fn merge_track_results(results: &Vec<(Vec<PackedNote>, Vec<(u32, u32)>)>) -> (r: (
    Vec<PackedNote>,
    Vec<(u32, u32)>,
))
    ensures
        r.0@ == joined_notes(results@, results@.len() as int),
        tempo_list(joined_tempos(results@, results@.len() as int), r.1@),
{
    let mut all_notes: Vec<PackedNote> = Vec::new();
    let mut kept: Vec<(u32, u32)> = Vec::new();
    let ghost mut changes: Seq<(u32, u32)> = seq![];
    let mut t: usize = 0;
    while t < results.len()
        invariant
            t <= results@.len(),
            all_notes@ == joined_notes(results@, t as int),
            changes == joined_tempos(results@, t as int),
            firsts(changes, kept@),
        decreases results@.len() - t,
    {
        let notes = &results[t].0;
        let tempos = &results[t].1;
        let ghost notes_before = all_notes@;
        let ghost changes_before = changes;
        let mut i: usize = 0;
        assert(notes@.take(0) =~= seq![]);
        while i < notes.len()
            invariant
                i <= notes@.len(),
                all_notes@ =~= notes_before + notes@.take(i as int),
            decreases notes@.len() - i,
        {
            all_notes.push(notes[i]);
            i += 1;
        }
        assert(notes@.take(i as int) =~= notes@);
        let mut k: usize = 0;
        assert(changes_before + tempos@.take(0) =~= changes_before);
        while k < tempos.len()
            invariant
                k <= tempos@.len(),
                changes =~= changes_before + tempos@.take(k as int),
                firsts(changes, kept@),
            decreases tempos@.len() - k,
        {
            keep_first(&mut kept, tempos[k], Ghost(changes));
            proof {
                changes = changes.push(tempos@[k as int]);
            }
            k += 1;
        }
        assert(tempos@.take(k as int) =~= tempos@);
        t += 1;
    }
    keep_first(&mut kept, (0, DEFAULT_TEMPO), Ghost(changes));
    let ghost unsorted = kept@;
    sort_by_tick(&mut kept);
    proof {
        lemma_sorted_firsts(changes, unsorted, kept@);
    }
    (all_notes, kept)
}

/// The cues of the tracks of a parsed file.
pub open spec fn cues_of_smf(smf: Smf) -> Seq<Seq<(u32, Cue)>> {
    Seq::new(smf.tracks@.len(), |i: int| cues_of_track(smf.tracks@[i]@))
}

/// The cues of tracks given by their bytes.
pub open spec fn cues_of_tracks(tracks: Seq<Seq<u8>>) -> Seq<Seq<(u32, Cue)>> {
    Seq::new(tracks.len(), |i: int| cues_of_bytes(tracks[i]))
}

/// The track data of a file without a wrapper, with the number of tracks that its header gives.
pub open spec fn tracks_of(file: Seq<u8>, count: u16) -> Seq<Seq<u8>> {
    tracks_from(file, 14, count as int)
}

/// Whether reading some track comes to a cut meta event.
pub open spec fn any_cut(tracks: Seq<Seq<u8>>) -> bool {
    exists|i: int| 0 <= i < tracks.len() && ends_cut(#[trigger] tracks[i], 0, None)
}

/// Whether reading some track of the file comes to a cut meta event.
pub open spec fn file_cut(raw: Seq<u8>) -> bool {
    match header_of(raw) {
        Ok((_, count, _, file)) => any_cut(tracks_of(file, count)),
        Err(_) => false,
    }
}

/// Results of single tracks that fit the cues join to the notes and changes of all of them.
proof fn lemma_joined(
    results: Seq<(Vec<PackedNote>, Vec<(u32, u32)>)>,
    cues: Seq<Seq<(u32, Cue)>>,
    n: int,
)
    requires
        0 <= n <= results.len(),
        results.len() == cues.len(),
        forall|i: int|
            0 <= i < results.len() ==> {
                &&& (#[trigger] results[i]).0@ == track_notes(cues[i], (i % 0x1_0000) as u16)
                &&& results[i].1@ == tempos(cues[i], 0)
            },
    ensures
        joined_notes(results, n) == all_notes(cues, n),
        joined_tempos(results, n) == all_tempos(cues, n),
    decreases n,
{
    if n > 0 {
        lemma_joined(results, cues, n - 1);
        assert(results[n - 1].0@ == track_notes(cues[n - 1], ((n - 1) % 0x1_0000) as u16));
    }
}

/// All notes and the tempo list of a parsed file.
pub fn extract_notes(smf: &Smf) -> (r: (Vec<PackedNote>, Vec<(u32, u32)>))
    ensures
        ({
            let cues = cues_of_smf(*smf);
            &&& r.0@ == all_notes(cues, cues.len() as int)
            &&& tempo_list(all_tempos(cues, cues.len() as int), r.1@)
        }),
{
    let ghost cues = cues_of_smf(*smf);
    let mut results: Vec<(Vec<PackedNote>, Vec<(u32, u32)>)> = Vec::new();
    let mut t: usize = 0;
    while t < smf.tracks.len()
        invariant
            t <= smf.tracks@.len(),
            results@.len() == t,
            cues == cues_of_smf(*smf),
            forall|i: int|
                0 <= i < t ==> {
                    &&& (#[trigger] results@[i]).0@ == track_notes(cues[i], (i % 0x1_0000) as u16)
                    &&& results@[i].1@ == tempos(cues[i], 0)
                },
        decreases smf.tracks@.len() - t,
    {
        let track_idx: u16 = (t % 0x1_0000) as u16;
        let result = parse_track_notes(smf.tracks[t].as_slice(), track_idx);
        assert(cues[t as int] == cues_of_track(smf.tracks@[t as int]@));
        results.push(result);
        t += 1;
    }
    proof {
        lemma_joined(results@, cues, t as int);
    }
    merge_track_results(&results)
}

/// The notes of a parsed file as an index with chunks of `chunk_ticks` ticks, and
/// its tempo list.
pub fn extract_notes_indexed(smf: &Smf, chunk_ticks: u32) -> (r: (NoteIndex, Vec<(u32, u32)>))
    requires
        last_end(all_notes(cues_of_smf(*smf), smf.tracks@.len() as int)) / (if chunk_ticks > 0 {
            chunk_ticks
        } else {
            1
        }) + 2 <= u32::MAX,
    ensures
        ({
            let cues = cues_of_smf(*smf);
            &&& r.0@.to_multiset() == all_notes(cues, cues.len() as int).to_multiset()
            &&& in_order(r.0@)
            &&& r.0.chunk() == if chunk_ticks > 0 {
                chunk_ticks
            } else {
                1
            }
            &&& tempo_list(all_tempos(cues, cues.len() as int), r.1@)
        }),
{
    let (notes, tempo_changes) = extract_notes(smf);
    let index = NoteIndex::build(notes, chunk_ticks);
    (index, tempo_changes)
}

/// Whether [`extract_notes_from_bytes`] or a streaming loader would come to a
/// meta event that is cut off behind its status byte.
pub fn has_cut_track(bytes: &[u8]) -> (r: bool)
    ensures
        r == file_cut(bytes@),
{
    match parse_header(bytes) {
        Err(_) => false,
        Ok((_, tracks_count, _, raw)) => {
            let tracks = iter_tracks_from_data(raw, tracks_count);
            let ghost data = tracks_of(raw@, tracks_count);
            let mut t: usize = 0;
            while t < tracks.len()
                invariant
                    t <= tracks@.len(),
                    at_starts(tracks@, data),
                    data == tracks_of(raw@, tracks_count),
                    header_of(bytes@) matches Ok((_, count, _, file)) && count == tracks_count
                        && file == raw@,
                    forall|i: int| 0 <= i < t ==> !ends_cut(#[trigger] data[i], 0, None),
                decreases tracks@.len() - t,
            {
                assert(tracks@[t as int].bytes() == data[t as int]);
                if tracks[t].is_cut() {
                    assert(any_cut(data));
                    return true;
                }
                t += 1;
            }
            false
        },
    }
}

/// All notes and the tempo list of a file, straight from its bytes.
///
/// No track may come to a meta event that is cut off behind its status byte;
/// [`has_cut_track`] tells.
pub fn extract_notes_from_bytes(bytes: &[u8]) -> (r: Result<
    (Vec<PackedNote>, Vec<(u32, u32)>),
    Error,
>)
    requires
        !file_cut(bytes@),
    ensures
        match header_of(bytes@) {
            Err(e) => r == Err::<(Vec<PackedNote>, Vec<(u32, u32)>), Error>(e),
            Ok((_, count, _, file)) => {
                let cues = cues_of_tracks(tracks_of(file, count));
                &&& r matches Ok(found)
                &&& found.0@ == all_notes(cues, cues.len() as int)
                &&& tempo_list(all_tempos(cues, cues.len() as int), found.1@)
            },
        },
{
    match parse_header(bytes) {
        Err(e) => Err(e),
        Ok((_, tracks_count, _, raw)) => {
            let tracks = iter_tracks_from_data(raw, tracks_count);
            let ghost data = tracks_of(raw@, tracks_count);
            let ghost cues = cues_of_tracks(data);
            assert(!any_cut(data));
            let mut results: Vec<(Vec<PackedNote>, Vec<(u32, u32)>)> = Vec::new();
            let mut t: usize = 0;
            while t < tracks.len()
                invariant
                    t <= tracks@.len() <= tracks_count,
                    at_starts(tracks@, data),
                    cues == cues_of_tracks(data),
                    results@.len() == t,
                    forall|i: int| 0 <= i < data.len() ==> !ends_cut(#[trigger] data[i], 0, None),
                    forall|i: int|
                        0 <= i < t ==> {
                            &&& (#[trigger] results@[i]).0@ == track_notes(
                                cues[i],
                                (i % 0x1_0000) as u16,
                            )
                            &&& results@[i].1@ == tempos(cues[i], 0)
                        },
                decreases tracks@.len() - t,
            {
                let iter = tracks[t];
                assert(iter.bytes() == data[t as int]);
                assert(cues[t as int] == cues_of(iter.events()));
                let result = parse_fast_track_notes(iter, t as u16);
                results.push(result);
                t += 1;
            }
            proof {
                lemma_joined(results@, cues, t as int);
            }
            Ok(merge_track_results(&results))
        },
    }
}

/// How many keys from `key` up are held.
spec fn held_from(active: Seq<Option<(u32, u8)>>, key: int) -> nat
    decreases 128 - key,
{
    if key >= 128 {
        0
    } else {
        held_from(active, key + 1) + if active[key] is Some {
            1nat
        } else {
            0
        }
    }
}

proof fn lemma_held_from_update(
    active: Seq<Option<(u32, u8)>>,
    key: int,
    k: int,
    entry: Option<(u32, u8)>,
)
    requires
        active.len() == 128,
        0 <= key,
        0 <= k < 128,
    ensures
        k < key ==> held_from(active.update(k, entry), key) == held_from(active, key),
        key <= k ==> held_from(active.update(k, entry), key) + (if active[k] is Some {
            1nat
        } else {
            0
        }) == held_from(active, key) + if entry is Some {
            1nat
        } else {
            0
        },
    decreases 128 - key,
{
    if key < 128 {
        lemma_held_from_update(active, key + 1, k, entry);
    }
}

proof fn lemma_held_none(active: Seq<Option<(u32, u8)>>, key: int)
    requires
        0 <= key,
        forall|i: int| 0 <= i < 128 ==> (#[trigger] active[i]) is None,
    ensures
        held_from(active, key) == 0,
    decreases 128 - key,
{
    if key < 128 {
        lemma_held_none(active, key + 1);
    }
}

proof fn lemma_run_count(state: NoteState, cues: Seq<(u32, Cue)>)
    requires
        state.active.len() == 128,
    ensures
        ({
            let end = state.run(cues);
            &&& end.active.len() == 128
            &&& end.notes.len() + held_from(end.active, 0) == state.notes.len() + held_from(
                state.active,
                0,
            ) + strikes(cues, 128)
        }),
    decreases cues.len(),
{
    if cues.len() > 0 {
        let now = state.wait(cues[0].0);
        let next = state.step(cues[0].0, cues[0].1);
        match cues[0].1 {
            Cue::Strike { key, velocity } => {
                if key < 128 {
                    lemma_held_from_update(now.active, 0, key as int, None);
                    lemma_held_from_update(
                        now.close(key).active,
                        0,
                        key as int,
                        Some((now.tick, velocity)),
                    );
                }
            },
            Cue::Release { key } => {
                if key < 128 {
                    lemma_held_from_update(now.active, 0, key as int, None);
                }
            },
            _ => {},
        }
        lemma_run_count(next, cues.drop_first());
    }
}

proof fn lemma_close_count(state: NoteState, key: int)
    requires
        state.active.len() == 128,
        0 <= key,
    ensures
        state.close_from(key).notes.len() == state.notes.len() + held_from(state.active, key),
    decreases 128 - key,
{
    if key < 128 {
        lemma_held_from_update(state.active, key + 1, key, None);
        lemma_close_count(state.close(key as u8), key + 1);
    }
}

/// A track has as many notes as it has strikes of the 128 keys: no strike is
/// lost, and none counts twice.
pub proof fn lemma_note_count(cues: Seq<(u32, Cue)>, track: u16)
    ensures
        track_notes(cues, track).len() == strikes(cues, 128),
{
    let start = NoteState::start(track);
    lemma_held_none(start.active, 0);
    lemma_run_count(start, cues);
    lemma_close_count(start.run(cues), 0);
}

/// What holds of the notes of a track at every moment.
spec fn sound(state: NoteState) -> bool {
    &&& state.active.len() == 128
    &&& forall|i: int|
        0 <= i < 128 ==> match #[trigger] state.active[i] {
            Some((since, _)) => since <= state.tick,
            None => true,
        }
    &&& forall|i: int|
        0 <= i < state.notes.len() ==> {
            &&& (#[trigger] state.notes[i]).start_tick <= state.notes[i].end_tick <= state.tick
            &&& state.notes[i].key < 128
            &&& state.notes[i].velocity < 128
            &&& state.notes[i].track == state.track
        }
    &&& forall|i: int, j: int|
        0 <= i <= j < state.notes.len() ==> (#[trigger] state.notes[i]).end_tick <= (
        #[trigger] state.notes[j]).end_tick
}

proof fn lemma_close_sound(state: NoteState, key: u8)
    requires
        sound(state),
    ensures
        sound(state.close(key)),
{
}

proof fn lemma_run_sound(state: NoteState, cues: Seq<(u32, Cue)>)
    requires
        sound(state),
    ensures
        sound(state.run(cues)),
        state.run(cues).track == state.track,
        state.run(cues).tick == last_tick(cues, state.tick),
    decreases cues.len(),
{
    if cues.len() > 0 {
        let now = state.wait(cues[0].0);
        assert(sound(now));
        match cues[0].1 {
            Cue::Strike { key, .. } => lemma_close_sound(now, key),
            Cue::Release { key } => lemma_close_sound(now, key),
            _ => {},
        }
        lemma_run_sound(state.step(cues[0].0, cues[0].1), cues.drop_first());
    }
}

proof fn lemma_close_from_sound(state: NoteState, key: int)
    requires
        sound(state),
    ensures
        sound(state.close_from(key)),
        state.close_from(key).track == state.track,
        state.close_from(key).tick == state.tick,
    decreases 128 - key,
{
    if 0 <= key < 128 {
        lemma_close_sound(state, key as u8);
        lemma_close_from_sound(state.close(key as u8), key + 1);
    }
}

/// Every note of a track ends no sooner than it starts and no later than the
/// track, has a key and a velocity below 128 and the number of the track, and
/// the notes come in the order of their ends.
pub proof fn lemma_notes_sound(cues: Seq<(u32, Cue)>, track: u16)
    ensures
        ({
            let notes = track_notes(cues, track);
            &&& forall|i: int|
                0 <= i < notes.len() ==> {
                    &&& (#[trigger] notes[i]).start_tick <= notes[i].end_tick <= last_tick(cues, 0)
                    &&& notes[i].key < 128
                    &&& notes[i].velocity < 128
                    &&& notes[i].track == track
                }
            &&& forall|i: int, j: int|
                0 <= i <= j < notes.len() ==> (#[trigger] notes[i]).end_tick <= (
                #[trigger] notes[j]).end_tick
        }),
{
    let start = NoteState::start(track);
    lemma_run_sound(start, cues);
    lemma_close_from_sound(start.run(cues), 0);
}

/// How often the 128 keys are struck in the first `n` tracks.
pub open spec fn all_strikes(tracks: Seq<Seq<(u32, Cue)>>, n: int) -> nat
    decreases n,
{
    if n <= 0 {
        0
    } else {
        all_strikes(tracks, n - 1) + strikes(tracks[n - 1], 128)
    }
}

/// A file has as many notes as its tracks have strikes of the 128 keys.
pub proof fn lemma_all_note_count(tracks: Seq<Seq<(u32, Cue)>>, n: int)
    ensures
        all_notes(tracks, n).len() == all_strikes(tracks, n),
    decreases n,
{
    if n > 0 {
        lemma_all_note_count(tracks, n - 1);
        lemma_note_count(tracks[n - 1], ((n - 1) % 0x1_0000) as u16);
    }
}

/// Every note of a file ends no sooner than it starts and has a key and a velocity
/// below 128.
pub proof fn lemma_all_notes_sound(tracks: Seq<Seq<(u32, Cue)>>, n: int, i: int)
    requires
        0 <= i < all_notes(tracks, n).len(),
    ensures
        ({
            let note = all_notes(tracks, n)[i];
            note.start_tick <= note.end_tick && note.key < 128 && note.velocity < 128
        }),
    decreases n,
{
    let before = all_notes(tracks, n - 1);
    if i < before.len() {
        lemma_all_notes_sound(tracks, n - 1, i);
    } else {
        lemma_notes_sound(tracks[n - 1], ((n - 1) % 0x1_0000) as u16);
    }
}

/// A tempo list starts at tick 0.
pub proof fn lemma_tempo_from_start(changes: Seq<(u32, u32)>, r: Seq<(u32, u32)>)
    requires
        tempo_list(changes, r),
    ensures
        r.len() > 0,
        r[0].0 == 0,
        !changes_at(changes, 0) ==> r[0].1 == DEFAULT_TEMPO,
{
    let all = changes.push((0u32, DEFAULT_TEMPO));
    assert(changes_at(r, all[changes.len() as int].0));
    let i = choose|i: int| 0 <= i < r.len() && (#[trigger] r[i]).0 == 0;
    if i > 0 {
        assert(r[0].0 < r[i].0);
    }
    lemma_first_push(changes, (0u32, DEFAULT_TEMPO), 0);
    lemma_first_some(changes, 0);
    assert(first_at(all, r[0].0) == Some(r[0]));
}

/// The changes of a file have only one tempo list.
pub proof fn lemma_tempo_list_unique(
    changes: Seq<(u32, u32)>,
    a: Seq<(u32, u32)>,
    b: Seq<(u32, u32)>,
)
    requires
        tempo_list(changes, a),
        tempo_list(changes, b),
    ensures
        a == b,
{
    lemma_tempo_prefix(changes, a, b, a.len() as int);
    lemma_tempo_prefix(changes, b, a, b.len() as int);
    assert(a =~= b);
}

proof fn lemma_tempo_prefix(
    changes: Seq<(u32, u32)>,
    a: Seq<(u32, u32)>,
    b: Seq<(u32, u32)>,
    n: int,
)
    requires
        tempo_list(changes, a),
        tempo_list(changes, b),
        0 <= n <= a.len(),
    ensures
        n <= b.len(),
        forall|i: int| 0 <= i < n ==> a[i] == b[i],
    decreases n,
{
    if n > 0 {
        lemma_tempo_prefix(changes, a, b, n - 1);
        lemma_tempo_covered(changes, a, b, n - 1);
        let j = choose|j: int| 0 <= j < b.len() && (#[trigger] b[j]).0 == a[n - 1].0;
        if j < n - 1 {
            assert(a[j] == b[j]);
            assert(a[j].0 < a[n - 1].0);
        }
        lemma_tempo_covered(changes, b, a, n - 1);
        let k = choose|k: int| 0 <= k < a.len() && (#[trigger] a[k]).0 == b[n - 1].0;
        if k < n - 1 {
            assert(a[k] == b[k]);
            assert(b[k].0 < b[n - 1].0);
        }
        let all = changes.push((0u32, DEFAULT_TEMPO));
        if j > n - 1 {
            assert(b[n - 1].0 < b[j].0);
        }
        if k > n - 1 {
            assert(a[n - 1].0 < a[k].0);
        }
        assert(first_at(all, a[n - 1].0) == Some(a[n - 1]));
        assert(first_at(all, b[n - 1].0) == Some(b[n - 1]));
    }
}

proof fn lemma_tempo_covered(
    changes: Seq<(u32, u32)>,
    a: Seq<(u32, u32)>,
    b: Seq<(u32, u32)>,
    i: int,
)
    requires
        tempo_list(changes, a),
        tempo_list(changes, b),
        0 <= i < a.len(),
    ensures
        changes_at(b, a[i].0),
{
    let all = changes.push((0u32, DEFAULT_TEMPO));
    assert(first_at(all, a[i].0) == Some(a[i]));
    lemma_first_some(all, a[i].0);
    let k = choose|k: int| 0 <= k < all.len() && (#[trigger] all[k]).0 == a[i].0;
    assert(changes_at(b, all[k].0));
}

} // verus!
