//! Loading notes track by track in step with a view window.

use std::collections::VecDeque;

use vstd::prelude::*;

use crate::cue::{later, Cue};
use crate::error::Error;
use crate::fast_midi::{at_starts, cut_meta, header_of, iter_tracks_from_data, parse_header};
use crate::fast_midi::{lemma_step, track_events, MidiEvent, TrackIter};
use crate::loader::{cue_of, cues_of, cues_of_bytes, tracks_of, NoteState};
use crate::note::PackedNote;
use crate::primitive::Timing;
use crate::smf::Header;
use crate::tick::{single, to_single, TickPoint};

verus! {

/// The most notes that a frame holds.
pub const MAX_FRAME_NOTES: usize = 10_000;

/// How many finished notes are kept where nothing else was asked for.
pub const DEFAULT_MAX_FINISHED: usize = 32_768;

/// Events with the ticks at which they happen, from `tick` on.
pub open spec fn timed(events: Seq<(u32, MidiEvent<Seq<u8>>)>, tick: u32) -> Seq<
    (u32, MidiEvent<Seq<u8>>),
>
    decreases events.len(),
{
    if events.len() == 0 {
        seq![]
    } else {
        let now = later(tick, events[0].0);
        seq![(now, events[0].1)] + timed(events.drop_first(), now)
    }
}

/// What a loader knows.
pub struct LoaderState {
    /// For each track, the events to come with their ticks.
    pub queues: Seq<Seq<(u32, MidiEvent<Seq<u8>>)>>,
    /// For each track and key, since when and how hard the key is held.
    pub active: Seq<Seq<Option<(u32, u8)>>>,
    /// The notes that have ended, the oldest first.
    pub finished: Seq<PackedNote>,
    /// How many of them are kept.
    pub max_finished: nat,
}

/// Whether track `i` has the next event: the one with the least tick, and of
/// those at one tick the one of the first track.
pub open spec fn is_next(queues: Seq<Seq<(u32, MidiEvent<Seq<u8>>)>>, i: int) -> bool {
    &&& 0 <= i < queues.len()
    &&& queues[i].len() > 0
    &&& forall|j: int|
        0 <= j < queues.len() && (#[trigger] queues[j]).len() > 0 ==> queues[i][0].0
            < queues[j][0].0 || (queues[i][0].0 == queues[j][0].0 && i <= j)
}

/// How many events are still to come.
pub open spec fn pending(queues: Seq<Seq<(u32, MidiEvent<Seq<u8>>)>>) -> nat
    decreases queues.len(),
{
    if queues.len() == 0 {
        0
    } else {
        pending(queues.drop_last()) + queues.last().len()
    }
}

/// How many tracks have events to come.
pub open spec fn waiting(queues: Seq<Seq<(u32, MidiEvent<Seq<u8>>)>>) -> nat
    decreases queues.len(),
{
    if queues.len() == 0 {
        0
    } else {
        waiting(queues.drop_last()) + if queues.last().len() > 0 {
            1nat
        } else {
            0
        }
    }
}

/// One more finished note. Where that makes too many, a quarter of the number to
/// keep goes, or more where more are too many, the oldest first.
pub open spec fn with_finished(finished: Seq<PackedNote>, note: PackedNote, max: nat) -> Seq<
    PackedNote,
> {
    let all = finished.push(note);
    if all.len() > max {
        all.skip(
            if max / 4 > all.len() - max {
                (max / 4) as int
            } else {
                all.len() - max
            },
        )
    } else {
        all
    }
}

impl LoaderState {
    /// Key `key` of track `track` is let go at `tick`: its note, where it is held, ends.
    pub open spec fn release(self, tick: u32, track: int, key: u8) -> LoaderState {
        match self.active[track][key as int] {
            Some((since, velocity)) if key < 128 => LoaderState {
                active: self.active.update(track, self.active[track].update(key as int, None)),
                finished: with_finished(
                    self.finished,
                    PackedNote::of(since, tick, key, velocity, (track % 0x1_0000) as u16),
                    self.max_finished,
                ),
                ..self
            },
            _ => self,
        }
    }

    /// What an event of a track does.
    pub open spec fn process(self, tick: u32, track: int, event: MidiEvent<Seq<u8>>) -> LoaderState {
        match cue_of(event) {
            Cue::Strike { key, velocity } => if key < 128 {
                let released = self.release(tick, track, key);
                LoaderState {
                    active: released.active.update(
                        track,
                        released.active[track].update(key as int, Some((tick, velocity))),
                    ),
                    ..released
                }
            } else {
                self
            },
            Cue::Release { key } => self.release(tick, track, key),
            _ => self,
        }
    }

    /// The next event of track `i` happens.
    pub open spec fn take(self, i: int) -> LoaderState {
        let (tick, event) = self.queues[i][0];
        LoaderState {
            queues: self.queues.update(i, self.queues[i].drop_first()),
            ..self.process(tick, i, event)
        }
    }

    /// The finished notes that are too many are forgotten, the oldest first.
    pub open spec fn limited(self) -> LoaderState {
        if self.finished.len() > self.max_finished {
            LoaderState {
                finished: self.finished.skip(self.finished.len() - self.max_finished),
                ..self
            }
        } else {
            self
        }
    }

    /// All events up to `target` happen to a loader that keeps its limit.
    pub open spec fn advance(self, target: u32) -> LoaderState {
        self.limited().run(target)
    }

    /// All events up to `target` happen, in the order of their ticks.
    pub open spec fn run(self, target: u32) -> LoaderState
        decreases pending(self.queues),
    {
        if exists|i: int| is_next(self.queues, i) {
            let i = choose|i: int| is_next(self.queues, i);
            if self.queues[i][0].0 <= target {
                proof {
                    lemma_pending_less(self.queues, i);
                }
                self.take(i).run(target)
            } else {
                self
            }
        } else {
            self
        }
    }

    /// The oldest finished notes that ended before `min_end` are forgotten.
    pub open spec fn prune(self, min_end: u32) -> LoaderState
        decreases self.finished.len(),
    {
        if self.finished.len() > 0 && self.finished[0].end_tick < min_end {
            LoaderState { finished: self.finished.drop_first(), ..self }.prune(min_end)
        } else {
            self
        }
    }
}

/// Taking an event leaves one fewer to come.
pub proof fn lemma_pending_less(queues: Seq<Seq<(u32, MidiEvent<Seq<u8>>)>>, i: int)
    requires
        0 <= i < queues.len(),
        queues[i].len() > 0,
    ensures
        pending(queues.update(i, queues[i].drop_first())) + 1 == pending(queues),
    decreases queues.len(),
{
    let after = queues.update(i, queues[i].drop_first());
    if i == queues.len() - 1 {
        assert(after.drop_last() =~= queues.drop_last());
    } else {
        assert(after.drop_last() =~= queues.drop_last().update(i, queues[i].drop_first()));
        lemma_pending_less(queues.drop_last(), i);
    }
}

/// Only one track has the next event.
proof fn lemma_next_unique(queues: Seq<Seq<(u32, MidiEvent<Seq<u8>>)>>, i: int, j: int)
    requires
        is_next(queues, i),
        is_next(queues, j),
    ensures
        i == j,
{
    assert(queues[i].len() > 0);
    assert(queues[j].len() > 0);
}

/// Whether a note starts no later than `limit` and ends no sooner than `min_end`.
pub open spec fn in_view(note: PackedNote, limit: TickPoint, min_end: TickPoint) -> bool {
    !limit.precedes(single(note.start_tick)) && !min_end.follows(single(note.end_tick))
}

/// The notes in view, in the order in which they ended.
pub open spec fn finished_in_view(
    finished: Seq<PackedNote>,
    limit: TickPoint,
    min_end: TickPoint,
) -> Seq<PackedNote>
    decreases finished.len(),
{
    if finished.len() == 0 {
        seq![]
    } else {
        let before = finished_in_view(finished.drop_last(), limit, min_end);
        if in_view(finished.last(), limit, min_end) {
            before.push(finished.last())
        } else {
            before
        }
    }
}

/// The notes of the first `n` keys of a track that are held since `limit` or
/// before, as if they ended at `end`.
pub open spec fn key_notes(
    keys: Seq<Option<(u32, u8)>>,
    n: int,
    track: u16,
    limit: TickPoint,
    end: u32,
) -> Seq<PackedNote>
    decreases n,
{
    if n <= 0 {
        seq![]
    } else {
        let before = key_notes(keys, n - 1, track, limit, end);
        match keys[n - 1] {
            Some((since, velocity)) => if limit.precedes(single(since)) {
                before
            } else {
                before.push(PackedNote::of(since, end, (n - 1) as u8, velocity, track))
            },
            None => before,
        }
    }
}

/// These notes of the first `n` tracks, one track after the other.
pub open spec fn held_notes(
    active: Seq<Seq<Option<(u32, u8)>>>,
    n: int,
    limit: TickPoint,
    end: u32,
) -> Seq<PackedNote>
    decreases n,
{
    if n <= 0 {
        seq![]
    } else {
        held_notes(active, n - 1, limit, end) + key_notes(
            active[n - 1],
            128,
            ((n - 1) % 0x1_0000) as u16,
            limit,
            end,
        )
    }
}

/// As many of the notes as a frame holds, the first ones.
pub open spec fn capped(notes: Seq<PackedNote>) -> Seq<PackedNote> {
    if notes.len() > MAX_FRAME_NOTES {
        notes.take(MAX_FRAME_NOTES as int)
    } else {
        notes
    }
}

/// The end that held notes get when everything up to `target` has happened:
/// `target` in single precision, inside the range of ticks.
pub open spec fn provisional_end(target: u32) -> u32 {
    if single(target) > u32::MAX {
        u32::MAX
    } else {
        single(target) as u32
    }
}

impl LoaderState {
    /// The notes of a frame: the finished ones in view, then the held ones.
    pub open spec fn frame(self, limit: TickPoint, min_end: TickPoint) -> Seq<PackedNote> {
        capped(
            finished_in_view(self.finished, limit, min_end) + held_notes(
                self.active,
                self.active.len() as int,
                limit,
                provisional_end(limit.clamped()),
            ),
        )
    }
}

/// Whether a note sounds at `current`.
pub open spec fn sounds_at(note: PackedNote, current: TickPoint) -> bool {
    current.covers(single(note.start_tick)) && current.reached_by(single(note.end_tick))
}

/// The track of the last of the notes that sounds `key` at `current`.
pub open spec fn sounding(notes: Seq<PackedNote>, current: TickPoint, key: int) -> Option<u16>
    decreases notes.len(),
{
    if notes.len() == 0 {
        None
    } else if notes.last().key == key && sounds_at(notes.last(), current) {
        Some(notes.last().track)
    } else {
        sounding(notes.drop_last(), current, key)
    }
}

/// One more note only matters to a frame that is not full.
proof fn lemma_capped_push(notes: Seq<PackedNote>, note: PackedNote)
    ensures
        capped(notes.push(note)) == if notes.len() >= MAX_FRAME_NOTES {
            capped(notes)
        } else {
            capped(notes).push(note)
        },
        capped(notes).len() == if notes.len() >= MAX_FRAME_NOTES {
            MAX_FRAME_NOTES as nat
        } else {
            notes.len()
        },
{
    assert(capped(notes.push(note)) =~= if notes.len() >= MAX_FRAME_NOTES {
        capped(notes)
    } else {
        capped(notes).push(note)
    });
}

/// Adds a note to a frame that is not full.
fn push_capped(frame: &mut Vec<PackedNote>, note: PackedNote, Ghost(all): Ghost<Seq<PackedNote>>)
    requires
        old(frame)@ == capped(all),
    ensures
        final(frame)@ == capped(all.push(note)),
{
    proof {
        lemma_capped_push(all, note);
    }
    if frame.len() < MAX_FRAME_NOTES {
        frame.push(note);
    }
}

/// A track reader with the event that it got last.
#[derive(Debug)]
struct TrackCursor<'a> {
    iter: TrackIter<'a>,
    abs_tick: u32,
    next_event: Option<MidiEvent<&'a [u8]>>,
}

impl<'a> TrackCursor<'a> {
    /// The events to come, with their ticks.
    spec fn queue(self) -> Seq<(u32, MidiEvent<Seq<u8>>)> {
        match self.next_event {
            Some(event) => seq![(self.abs_tick, event@)] + timed(self.iter.events(), self.abs_tick),
            None => seq![],
        }
    }

    /// Whether the last of these events is followed by a cut meta event.
    spec fn cut(self) -> bool {
        self.next_event is Some && self.iter.cut()
    }

    fn new(iter: TrackIter<'a>) -> (r: TrackCursor<'a>)
        requires
            !cut_meta(iter.bytes(), iter.position()),
        ensures
            r.queue() == timed(iter.events(), 0),
            r.cut() == iter.cut(),
    {
        let mut cursor = TrackCursor { iter, abs_tick: 0, next_event: None };
        cursor.pull_next();
        cursor
    }

    fn pull_next(&mut self)
        requires
            !cut_meta(old(self).iter.bytes(), old(self).iter.position()),
        ensures
            final(self).queue() == timed(old(self).iter.events(), old(self).abs_tick),
            final(self).cut() == old(self).iter.cut(),
    {
        let ghost events = self.iter.events();
        match self.iter.next_event() {
            Some((delta, event)) => {
                assert(events.drop_first() =~= self.iter.events());
                self.abs_tick = self.abs_tick.saturating_add(delta);
                self.next_event = Some(event);
            },
            None => {
                self.next_event = None;
            },
        }
    }
}

/// Loads the notes of a file as far as a view window needs them.
///
/// The loader reads all tracks side by side, in the order of the ticks, keeps
/// the notes that have ended up to a limit, and hands out those in view.
#[derive(Debug)]
pub struct StreamingNoteLoader<'a> {
    header: Header,
    division: u16,
    cursors: Vec<TrackCursor<'a>>,
    active_notes: Vec<[Option<(u32, u8)>; 128]>,
    finished_notes: VecDeque<PackedNote>,
    max_finished_notes: usize,
    frame_notes: Vec<PackedNote>,
    active_keys: [Option<u16>; 128],
}

/// The queue of a track given by its bytes.
pub open spec fn track_queue(track: Seq<u8>) -> Seq<(u32, MidiEvent<Seq<u8>>)> {
    timed(track_events(track, 0, None), 0)
}

/// A loader before the first event of a file with these tracks.
pub open spec fn fresh(tracks: Seq<Seq<u8>>) -> LoaderState {
    LoaderState {
        queues: Seq::new(tracks.len(), |i: int| track_queue(tracks[i])),
        active: Seq::new(tracks.len(), |i: int| Seq::new(128, |k: int| None)),
        finished: seq![],
        max_finished: DEFAULT_MAX_FINISHED as nat,
    }
}

/// Whether some track begins with a meta event that is cut off behind its status byte.
pub open spec fn any_starts_cut(tracks: Seq<Seq<u8>>) -> bool {
    exists|i: int| 0 <= i < tracks.len() && cut_meta(#[trigger] tracks[i], 0)
}

/// Whether some track of the file begins with a cut meta event.
pub open spec fn starts_cut(raw: Seq<u8>) -> bool {
    match header_of(raw) {
        Ok((_, count, _, file)) => any_starts_cut(tracks_of(file, count)),
        Err(_) => false,
    }
}

/// Whether some track of the file begins with a meta event that is cut off behind
/// its status byte. A loader cannot be made for such a file.
pub fn begins_cut(data: &[u8]) -> (r: bool)
    ensures
        r == starts_cut(data@),
{
    match parse_header(data) {
        Err(_) => false,
        Ok((_, tracks_count, _, raw)) => {
            let iters = iter_tracks_from_data(raw, tracks_count);
            let ghost tracks = tracks_of(raw@, tracks_count);
            let mut i: usize = 0;
            while i < iters.len()
                invariant
                    i <= iters@.len(),
                    at_starts(iters@, tracks),
                    starts_cut(data@) == any_starts_cut(tracks),
                    forall|k: int| 0 <= k < i ==> !cut_meta(#[trigger] tracks[k], 0),
                decreases iters@.len() - i,
            {
                assert(iters@[i as int].bytes() == tracks[i as int]);
                if iters[i].at_cut_meta() {
                    return true;
                }
                i += 1;
            }
            false
        },
    }
}

/// Ticks per quarter note, or ticks per frame.
pub open spec fn division_of(timing: Timing) -> u16 {
    match timing {
        Timing::Metrical(ticks) => ticks.value(),
        Timing::Timecode(_, subframe) => subframe as u16,
    }
}

/// Whether the tick of the last event of a queue is behind `target`.
pub open spec fn ends_behind(queue: Seq<(u32, MidiEvent<Seq<u8>>)>, target: u32) -> bool {
    queue.len() > 0 && queue.last().0 > target
}

impl<'a> StreamingNoteLoader<'a> {
    /// What the loader knows.
    pub closed spec fn state(self) -> LoaderState {
        LoaderState {
            queues: Seq::new(self.cursors@.len(), |i: int| self.cursors@[i].queue()),
            active: Seq::new(self.active_notes@.len(), |i: int| self.active_notes@[i]@),
            finished: self.finished_notes@,
            max_finished: self.max_finished_notes as nat,
        }
    }

    /// For each track, whether its last event is followed by a cut meta event.
    pub closed spec fn cuts(self) -> Seq<bool> {
        Seq::new(self.cursors@.len(), |i: int| self.cursors@[i].cut())
    }

    /// Every track has its keys.
    pub closed spec fn wf(self) -> bool {
        self.cursors@.len() == self.active_notes@.len()
    }

    /// The header of the file.
    pub closed spec fn file_header(self) -> Header {
        self.header
    }

    /// Ticks per quarter note, or ticks per frame.
    pub closed spec fn file_division(self) -> u16 {
        self.division
    }

    /// The notes of the last frame.
    pub closed spec fn frame(self) -> Seq<PackedNote> {
        self.frame_notes@
    }

    /// For each key the track that sounds it in the last frame.
    pub closed spec fn keys(self) -> Seq<Option<u16>> {
        self.active_keys@
    }

    /// Whether no track comes to a cut meta event when all events up to `target` happen.
    pub open spec fn can_reach(self, target: u32) -> bool {
        forall|i: int|
            0 <= i < self.cuts().len() && #[trigger] self.cuts()[i] ==> ends_behind(
                self.state().queues[i],
                target,
            )
    }

    /// A loader for the bytes of a file.
    ///
    /// No track may begin with a meta event that is cut off behind its status byte;
    /// [`begins_cut`] tells.
    pub fn from_mmap(data: &'a [u8]) -> (r: Result<StreamingNoteLoader<'a>, Error>)
        requires
            !starts_cut(data@),
        ensures
            match header_of(data@) {
                Err(e) => r == Err::<StreamingNoteLoader<'a>, Error>(e),
                Ok((header, count, _, file)) => {
                    let tracks = tracks_of(file, count);
                    &&& r matches Ok(loader)
                    &&& loader.wf()
                    &&& loader.state() == fresh(tracks)
                    &&& loader.cuts() == Seq::new(
                        tracks.len(),
                        |i: int| crate::fast_midi::ends_cut(tracks[i], 0, None),
                    )
                    &&& loader.file_header() == header
                    &&& loader.file_division() == division_of(header.timing)
                    &&& loader.frame() == Seq::<PackedNote>::empty()
                    &&& loader.keys() == Seq::new(128, |k: int| None::<u16>)
                },
            },
    {
        let (header, tracks_count, _, raw) = match parse_header(data) {
            Ok(parsed) => parsed,
            Err(e) => return Err(e),
        };
        let division: u16 = match header.timing {
            Timing::Metrical(ticks) => ticks.as_int(),
            Timing::Timecode(_, subframe) => subframe as u16,
        };
        let iters = iter_tracks_from_data(raw, tracks_count);
        let ghost tracks = tracks_of(raw@, tracks_count);
        assert(!any_starts_cut(tracks));
        let mut cursors: Vec<TrackCursor<'a>> = Vec::new();
        let mut active_notes: Vec<[Option<(u32, u8)>; 128]> = Vec::new();
        let mut i: usize = 0;
        while i < iters.len()
            invariant
                i <= iters@.len(),
                at_starts(iters@, tracks),
                forall|k: int| 0 <= k < tracks.len() ==> !cut_meta(#[trigger] tracks[k], 0),
                cursors@.len() == i,
                active_notes@.len() == i,
                forall|k: int|
                    0 <= k < i ==> {
                        &&& (#[trigger] cursors@[k]).queue() == track_queue(tracks[k])
                        &&& cursors@[k].cut() == crate::fast_midi::ends_cut(tracks[k], 0, None)
                    },
                forall|k: int|
                    0 <= k < i ==> (#[trigger] active_notes@[k])@ =~= Seq::new(
                        128,
                        |k: int| None::<(u32, u8)>,
                    ),
            decreases iters@.len() - i,
        {
            let iter = iters[i];
            assert(iter.bytes() == tracks[i as int]);
            cursors.push(TrackCursor::new(iter));
            active_notes.push([None; 128]);
            i += 1;
        }
        let loader = StreamingNoteLoader {
            header,
            division,
            cursors,
            active_notes,
            finished_notes: VecDeque::new(),
            max_finished_notes: DEFAULT_MAX_FINISHED,
            frame_notes: Vec::with_capacity(2048),
            active_keys: [None; 128],
        };
        assert(loader.state().queues =~= fresh(tracks).queues);
        assert(loader.state().active =~= fresh(tracks).active);
        assert(loader.state().finished =~= fresh(tracks).finished);
        Ok(loader)
    }

    fn finish_note(&mut self, track_idx: usize, key: u8, since: u32, velocity: u8, end_tick: u32)
        ensures
            final(self).finished_notes@ == with_finished(
                old(self).finished_notes@,
                PackedNote::of(since, end_tick, key, velocity, (track_idx % 0x1_0000) as u16),
                old(self).max_finished_notes as nat,
            ),
            final(self).only_notes_changed(*old(self)),
            final(self).active_notes == old(self).active_notes,
    {
        let track: u16 = (track_idx % 0x1_0000) as u16;
        self.finished_notes.push_back(PackedNote::new(since, end_tick, key, velocity, track));
        if self.finished_notes.len() > self.max_finished_notes {
            let excess: usize = self.finished_notes.len() - self.max_finished_notes;
            let quarter: usize = self.max_finished_notes / 4;
            let remove_count: usize = if quarter > excess {
                quarter
            } else {
                excess
            };
            self.forget_oldest(remove_count);
        }
    }

    /// Forgets the oldest `count` finished notes.
    fn forget_oldest(&mut self, count: usize)
        requires
            count <= old(self).finished_notes@.len(),
        ensures
            final(self).finished_notes@ == old(self).finished_notes@.skip(count as int),
            final(self).only_notes_changed(*old(self)),
            final(self).active_notes == old(self).active_notes,
    {
        let ghost all = self.finished_notes@;
        let mut i: usize = 0;
        assert(all.skip(0) =~= all);
        while i < count
            invariant
                i <= count <= all.len(),
                self.finished_notes@ == all.skip(i as int),
                self.only_notes_changed(*old(self)),
                self.active_notes == old(self).active_notes,
            decreases count - i,
        {
            let _ = self.finished_notes.pop_front();
            i += 1;
            assert(self.finished_notes@ =~= all.skip(i as int));
        }
    }

    /// Whether nothing changed but held keys and finished notes.
    spec fn only_notes_changed(self, before: StreamingNoteLoader<'a>) -> bool {
        &&& self.header == before.header
        &&& self.division == before.division
        &&& self.cursors == before.cursors
        &&& self.max_finished_notes == before.max_finished_notes
        &&& self.frame_notes == before.frame_notes
        &&& self.active_keys == before.active_keys
        &&& self.active_notes@.len() == before.active_notes@.len()
    }

    fn release_key(&mut self, tick: u32, track_idx: usize, key: u8)
        requires
            track_idx < old(self).active_notes@.len(),
        ensures
            final(self).state() == old(self).state().release(tick, track_idx as int, key),
            final(self).only_notes_changed(*old(self)),
    {
        if key >= 128 {
            return;
        }
        let held = self.active_notes[track_idx][key as usize];
        if let Some((since, velocity)) = held {
            self.active_notes[track_idx][key as usize] = None;
            self.finish_note(track_idx, key, since, velocity, tick);
            let ghost after = old(self).state().release(tick, track_idx as int, key);
            assert(self.state().queues =~= after.queues);
            assert(self.state().active =~= after.active);
        }
    }

    fn process_event(&mut self, tick: u32, track_idx: usize, event: MidiEvent<&'a [u8]>)
        requires
            track_idx < old(self).active_notes@.len(),
        ensures
            final(self).state() == old(self).state().process(tick, track_idx as int, event@),
            final(self).only_notes_changed(*old(self)),
    {
        match event {
            MidiEvent::NoteOn { key, velocity, .. } => {
                self.release_key(tick, track_idx, key);
                let ghost released = self.state();
                if key < 128 && velocity > 0 {
                    self.active_notes[track_idx][key as usize] = Some((tick, velocity));
                    let ghost after = old(self).state().process(tick, track_idx as int, event@);
                    assert(self.state().queues =~= after.queues);
                    assert(self.state().active =~= after.active);
                }
            },
            MidiEvent::NoteOff { key, .. } => self.release_key(tick, track_idx, key),
            _ => {},
        }
    }

    /// The track with the next event.
    fn next_track(&self) -> (r: Option<usize>)
        ensures
            match r {
                Some(i) => is_next(self.state().queues, i as int),
                None => forall|i: int| !is_next(self.state().queues, i),
            },
    {
        let ghost queues = self.state().queues;
        let mut best: Option<usize> = None;
        let mut i: usize = 0;
        while i < self.cursors.len()
            invariant
                i <= self.cursors@.len(),
                queues == self.state().queues,
                match best {
                    Some(b) => {
                        &&& b < i
                        &&& queues[b as int].len() > 0
                        &&& forall|j: int|
                            0 <= j < i && (#[trigger] queues[j]).len() > 0 ==> queues[b as int][0].0
                                < queues[j][0].0 || (queues[b as int][0].0 == queues[j][0].0 && b
                                <= j)
                    },
                    None => forall|j: int| 0 <= j < i ==> (#[trigger] queues[j]).len() == 0,
                },
            decreases self.cursors@.len() - i,
        {
            assert(queues[i as int] == self.cursors@[i as int].queue());
            if self.cursors[i].next_event.is_some() {
                best = match best {
                    None => Some(i),
                    Some(b) => {
                        assert(queues[b as int] == self.cursors@[b as int].queue());
                        if self.cursors[i].abs_tick < self.cursors[b].abs_tick {
                            Some(i)
                        } else {
                            Some(b)
                        }
                    },
                };
            }
            i += 1;
        }
        best
    }

    fn advance_to(&mut self, target_tick: u32)
        requires
            old(self).wf(),
            old(self).can_reach(target_tick),
        ensures
            final(self).wf(),
            final(self).state() == old(self).state().advance(target_tick),
            final(self).can_reach(target_tick),
            final(self).header == old(self).header,
            final(self).division == old(self).division,
            final(self).frame_notes == old(self).frame_notes,
            final(self).active_keys == old(self).active_keys,
            final(self).max_finished_notes == old(self).max_finished_notes,
            final(self).state().finished.len() <= final(self).state().max_finished,
    {
        proof {
            lemma_finished_bounded(self.state(), target_tick);
        }
        if self.finished_notes.len() > self.max_finished_notes {
            let excess: usize = self.finished_notes.len() - self.max_finished_notes;
            self.forget_oldest(excess);
        }
        assert(self.state().queues =~= old(self).state().queues);
        assert(self.state().active =~= old(self).state().active);
        assert(self.state() == old(self).state().limited());
        assert(self.cuts() =~= old(self).cuts());
        loop
            invariant
                self.wf(),
                self.can_reach(target_tick),
                self.state().run(target_tick) == old(self).state().advance(target_tick),
                self.header == old(self).header,
                self.division == old(self).division,
                self.frame_notes == old(self).frame_notes,
                self.active_keys == old(self).active_keys,
                self.max_finished_notes == old(self).max_finished_notes,
            ensures
                self.state() == old(self).state().advance(target_tick),
            decreases pending(self.state().queues),
        {
            let ghost before = self.state();
            let c: usize = match self.next_track() {
                Some(c) => c,
                None => break,
            };
            let ghost cursor = self.cursors@[c as int];
            let ghost queue = cursor.queue();
            assert(before.queues[c as int] == queue);
            proof {
                let i = choose|i: int| is_next(before.queues, i);
                lemma_next_unique(before.queues, c as int, i);
            }
            let tick: u32 = self.cursors[c].abs_tick;
            if tick > target_tick {
                break;
            }
            let ghost cuts = self.cuts();
            assert(cuts[c as int] == cursor.cut());
            let iter = self.cursors[c].iter;
            proof {
                use_type_invariant(&iter);
                lemma_step(cursor.iter.bytes(), cursor.iter.position(), cursor.iter.status());
                lemma_pending_less(before.queues, c as int);
            }
            if let Some(event) = self.cursors[c].next_event {
                self.process_event(tick, c, event);
                self.cursors[c].pull_next();
                let ghost after = before.take(c as int);
                proof {
                    assert(queue.drop_first() =~= timed(cursor.iter.events(), tick));
                    assert(self.state().queues =~= after.queues);
                    assert(self.state().active =~= after.active);
                    assert forall|i: int|
                        0 <= i < self.cuts().len() && #[trigger] self.cuts()[i] implies ends_behind(
                        self.state().queues[i],
                        target_tick,
                    ) by {
                        assert(cuts[i]);
                        assert(ends_behind(before.queues[i], target_tick));
                    }
                }
            }
        }
    }

    /// Whether no track comes to a cut meta event when all events up to `target_tick` happen.
    pub fn can_advance_to(&self, target_tick: u32) -> (r: bool)
        ensures
            r == self.can_reach(target_tick),
    {
        let mut i: usize = 0;
        while i < self.cursors.len()
            invariant
                i <= self.cursors@.len(),
                forall|k: int|
                    0 <= k < i && #[trigger] self.cuts()[k] ==> ends_behind(
                        self.state().queues[k],
                        target_tick,
                    ),
            decreases self.cursors@.len() - i,
        {
            let cursor = &self.cursors[i];
            assert(self.state().queues[i as int] == cursor.queue());
            assert(self.cuts()[i as int] == cursor.cut());
            if cursor.next_event.is_some() && !ticks_reach(
                cursor.iter,
                cursor.abs_tick,
                target_tick,
            ) {
                proof {
                    lemma_timed_last(cursor.iter.events(), cursor.abs_tick);
                }
                return false;
            }
            proof {
                lemma_timed_last(cursor.iter.events(), cursor.abs_tick);
            }
            i += 1;
        }
        true
    }

    fn prune_old_notes(&mut self, min_end_tick: u32)
        ensures
            final(self).state() == old(self).state().prune(min_end_tick),
            final(self).only_notes_changed(*old(self)),
            final(self).active_notes == old(self).active_notes,
    {
        while self.finished_notes.len() > 0 && self.finished_notes[0].end_tick < min_end_tick
            invariant
                self.state().prune(min_end_tick) == old(self).state().prune(min_end_tick),
                self.only_notes_changed(*old(self)),
                self.active_notes == old(self).active_notes,
            decreases self.finished_notes@.len(),
        {
            let ghost before = self.state();
            let _ = self.finished_notes.pop_front();
            assert(self.state().finished =~= before.finished.drop_first());
            assert(self.state().queues =~= before.queues);
            assert(self.state().active =~= before.active);
        }
    }

    /// Reads on to what a window needs and collects the notes of the window.
    ///
    /// `current_tick` is the place that is played now. `limit` is two screens
    /// behind it: everything up to there is read, and notes that start later are
    /// left out. Notes that ended before `min_end` are left out, and forgotten
    /// where nothing older is kept.
    ///
    /// Returns the notes and, for each key, the track that sounds it now.
    ///
    /// No track may come to a cut meta event on the way;
    /// [`StreamingNoteLoader::can_advance_to`] tells.
    pub fn prepare_frame(
        &mut self,
        current_tick: TickPoint,
        limit: TickPoint,
        min_end: TickPoint,
    ) -> (r: (&[PackedNote], &[Option<u16>; 128]))
        requires
            old(self).wf(),
            old(self).can_reach(limit.clamped()),
        ensures
            final(self).wf(),
            final(self).can_reach(limit.clamped()),
            final(self).state() == old(self).state().advance(limit.clamped()).prune(
                min_end.clamped(),
            ),
            final(self).state().finished.len() <= final(self).state().max_finished,
            final(self).state().max_finished == old(self).state().max_finished,
            r.0@ == final(self).state().frame(limit, min_end),
            r.1@ == Seq::new(128, |k: int| sounding(r.0@, current_tick, k)),
            final(self).frame() == r.0@,
            final(self).keys() == r.1@,
            final(self).file_header() == old(self).file_header(),
            final(self).file_division() == old(self).file_division(),
    {
        let parse_target: u32 = limit.clamp();
        self.advance_to(parse_target);
        let ghost reached = *self;
        proof {
            lemma_prune_old(self.state(), min_end.clamped());
        }
        self.prune_old_notes(min_end.clamp());
        let end: i64 = to_single(parse_target);
        let provisional: u32 = if end > 0xFFFF_FFFF {
            u32::MAX
        } else {
            end as u32
        };
        let mut frame: Vec<PackedNote> = Vec::new();
        std::mem::swap(&mut frame, &mut self.frame_notes);
        frame.clear();
        self.collect_finished(limit, min_end, &mut frame);
        self.collect_held(
            limit,
            provisional,
            &mut frame,
            Ghost(finished_in_view(self.finished_notes@, limit, min_end)),
        );
        self.active_keys = keys_at(&frame, current_tick);
        self.frame_notes = frame;
        assert(self.cuts() =~= reached.cuts());
        assert(self.state().queues =~= reached.state().queues);
        (self.frame_notes.as_slice(), &self.active_keys)
    }

    /// Collects the finished notes in view.
    fn collect_finished(&self, limit: TickPoint, min_end: TickPoint, frame: &mut Vec<PackedNote>)
        requires
            old(frame)@.len() == 0,
        ensures
            final(frame)@ == capped(finished_in_view(self.finished_notes@, limit, min_end)),
    {
        let ghost all = self.finished_notes@;
        let mut i: usize = 0;
        assert(finished_in_view(all.take(0), limit, min_end) =~= frame@);
        while i < self.finished_notes.len()
            invariant
                i <= all.len(),
                all == self.finished_notes@,
                frame@ == capped(finished_in_view(all.take(i as int), limit, min_end)),
            decreases all.len() - i,
        {
            let note = self.finished_notes[i];
            assert(all.take(i + 1).drop_last() =~= all.take(i as int));
            if !limit.is_before(to_single(note.start_tick)) && !min_end.is_after(
                to_single(note.end_tick),
            ) {
                push_capped(
                    frame,
                    note,
                    Ghost(finished_in_view(all.take(i as int), limit, min_end)),
                );
            }
            i += 1;
        }
        assert(all.take(i as int) =~= all);
    }

    /// Collects the held notes.
    fn collect_held(
        &self,
        limit: TickPoint,
        end: u32,
        frame: &mut Vec<PackedNote>,
        Ghost(before): Ghost<Seq<PackedNote>>,
    )
        requires
            old(frame)@ == capped(before),
        ensures
            final(frame)@ == capped(
                before + held_notes(
                    self.state().active,
                    self.active_notes@.len() as int,
                    limit,
                    end,
                ),
            ),
    {
        let ghost active = self.state().active;
        let mut t: usize = 0;
        assert(before + held_notes(active, 0, limit, end) =~= before);
        while t < self.active_notes.len()
            invariant
                t <= self.active_notes@.len(),
                active == self.state().active,
                frame@ == capped(before + held_notes(active, t as int, limit, end)),
            decreases self.active_notes@.len() - t,
        {
            let track: u16 = (t % 0x1_0000) as u16;
            let ghost so_far = before + held_notes(active, t as int, limit, end);
            let ghost keys = active[t as int];
            assert(keys == self.active_notes@[t as int]@);
            let mut key: u8 = 0;
            assert(so_far + key_notes(keys, 0, track, limit, end) =~= so_far);
            while key < 128
                invariant
                    key <= 128,
                    t < self.active_notes@.len(),
                    keys == self.active_notes@[t as int]@,
                    frame@ == capped(so_far + key_notes(keys, key as int, track, limit, end)),
                decreases 128 - key,
            {
                let ghost notes = so_far + key_notes(keys, key as int, track, limit, end);
                if let Some((since, velocity)) = self.active_notes[t][key as usize] {
                    if !limit.is_before(to_single(since)) {
                        let note = PackedNote::new(since, end, key, velocity, track);
                        push_capped(frame, note, Ghost(notes));
                        assert(so_far + key_notes(keys, key + 1, track, limit, end) =~= notes.push(
                            note,
                        ));
                    }
                }
                key += 1;
            }
            assert(so_far + key_notes(keys, 128, track, limit, end) =~= before + held_notes(
                active,
                t + 1,
                limit,
                end,
            ));
            t += 1;
        }
    }

    /// Reads all remaining events. Returns the number of finished notes that are kept,
    /// which is within the limit. To do it again changes nothing.
    ///
    /// No track may come to a cut meta event on the way;
    /// [`StreamingNoteLoader::can_advance_to`] tells.
    pub fn parse_all(&mut self) -> (r: usize)
        requires
            old(self).wf(),
            old(self).can_reach(u32::MAX),
        ensures
            final(self).wf(),
            final(self).can_reach(u32::MAX),
            final(self).state() == old(self).state().advance(u32::MAX),
            r == final(self).state().finished.len(),
            r <= final(self).state().max_finished,
            final(self).state().max_finished == old(self).state().max_finished,
            final(self).state().advance(u32::MAX) == final(self).state(),
            final(self).frame() == old(self).frame(),
            final(self).keys() == old(self).keys(),
            final(self).file_header() == old(self).file_header(),
            final(self).file_division() == old(self).file_division(),
    {
        proof {
            lemma_advance_in_stages(self.state(), u32::MAX, u32::MAX);
        }
        self.advance_to(u32::MAX);
        self.finished_notes.len()
    }

    /// Sets how many finished notes are kept at most. Where there are more, the
    /// oldest go as soon as the loader reads on.
    pub fn set_max_finished_notes(&mut self, max: usize)
        ensures
            final(self).state() == (LoaderState { max_finished: max as nat, ..old(self).state() }),
            final(self).wf() == old(self).wf(),
            final(self).cuts() == old(self).cuts(),
            final(self).frame() == old(self).frame(),
            final(self).keys() == old(self).keys(),
            final(self).file_header() == old(self).file_header(),
            final(self).file_division() == old(self).file_division(),
    {
        self.max_finished_notes = max;
        assert(self.state().queues =~= old(self).state().queues);
        assert(self.state().active =~= old(self).state().active);
        assert(self.cuts() =~= old(self).cuts());
    }

    /// How many finished notes are kept at the moment.
    pub fn finished_notes_count(&self) -> (r: usize)
        ensures
            r == self.state().finished.len(),
    {
        self.finished_notes.len()
    }

    /// Figures on the memory in use.
    pub fn memory_stats(&self) -> (r: LoaderMemoryStats)
        ensures
            r.finished_notes_count == self.state().finished.len(),
            r.finished_notes_capacity >= self.state().finished.len(),
            r.frame_notes_capacity >= self.frame().len(),
            r.num_tracks == self.state().queues.len(),
            r.heap_size == waiting(self.state().queues),
    {
        let ghost queues = self.state().queues;
        let mut heap_size: usize = 0;
        let mut i: usize = 0;
        assert(queues.take(0) =~= seq![]);
        while i < self.cursors.len()
            invariant
                i <= self.cursors@.len(),
                queues == self.state().queues,
                heap_size <= i,
                heap_size == waiting(queues.take(i as int)),
            decreases self.cursors@.len() - i,
        {
            assert(queues.take(i + 1).drop_last() =~= queues.take(i as int));
            assert(queues[i as int] == self.cursors@[i as int].queue());
            if self.cursors[i].next_event.is_some() {
                heap_size += 1;
            }
            i += 1;
        }
        assert(queues.take(i as int) =~= queues);
        LoaderMemoryStats {
            finished_notes_count: self.finished_notes.len(),
            finished_notes_capacity: deque_capacity(&self.finished_notes),
            frame_notes_capacity: vec_capacity(&self.frame_notes),
            num_tracks: self.cursors.len(),
            heap_size,
        }
    }

    /// The header of the file.
    pub fn header(&self) -> (r: &Header)
        ensures
            *r == self.file_header(),
    {
        &self.header
    }

    /// Ticks per quarter note, or ticks per frame.
    pub fn division(&self) -> (r: u16)
        ensures
            r == self.file_division(),
    {
        self.division
    }
}

/// Figures on the memory that a loader uses.
#[derive(Clone, Copy, Debug)]
pub struct LoaderMemoryStats {
    /// How many finished notes are kept.
    pub finished_notes_count: usize,
    /// For how many finished notes there is room.
    pub finished_notes_capacity: usize,
    /// For how many notes of a frame there is room.
    pub frame_notes_capacity: usize,
    /// The number of tracks.
    pub num_tracks: usize,
    /// How many tracks have events to come.
    pub heap_size: usize,
}

/// The capacity of a vector, from `Vec::capacity` of std.
///
/// Trusted: it is at least the length. What lies above is up to the allocator.
#[verifier::external_body]
fn vec_capacity(notes: &Vec<PackedNote>) -> (r: usize)
    ensures
        r >= notes@.len(),
{
    notes.capacity()
}

/// The capacity of a deque, from `VecDeque::capacity` of std.
///
/// Trusted: it is at least the length. What lies above is up to the allocator.
#[verifier::external_body]
fn deque_capacity(notes: &VecDeque<PackedNote>) -> (r: usize)
    ensures
        r >= notes@.len(),
{
    notes.capacity()
}

/// For each key, the track of the last of the notes that sounds it at `current`.
fn keys_at(notes: &Vec<PackedNote>, current: TickPoint) -> (r: [Option<u16>; 128])
    ensures
        r@ == Seq::new(128, |k: int| sounding(notes@, current, k)),
{
    let mut keys: [Option<u16>; 128] = [None; 128];
    let mut i: usize = 0;
    while i < notes.len()
        invariant
            i <= notes@.len(),
            forall|k: int|
                0 <= k < 128 ==> #[trigger] keys@[k] == sounding(notes@.take(i as int), current, k),
        decreases notes@.len() - i,
    {
        assert(notes@.take(i + 1).drop_last() =~= notes@.take(i as int));
        let note = notes[i];
        if current.is_at_or_after(to_single(note.start_tick)) && current.is_at_or_before(
            to_single(note.end_tick),
        ) {
            if note.key < 128 {
                keys[note.key as usize] = Some(note.track);
            }
        }
        i += 1;
    }
    assert(notes@.take(i as int) =~= notes@);
    assert(keys@ =~= Seq::new(128, |k: int| sounding(notes@, current, k)));
    keys
}

/// Whether, from `tick` on, the reader gets an event behind `target` or comes to
/// the end of the track rather than to a cut meta event.
fn ticks_reach(from: TrackIter, start: u32, target: u32) -> (r: bool)
    ensures
        r == (!from.cut() || start > target || ends_behind(timed(from.events(), start), target)),
{
    proof {
        use_type_invariant(&from);
    }
    let mut iter = from;
    let mut tick: u32 = start;
    loop
        invariant
            0 <= iter.position() <= iter.bytes().len(),
            (!from.cut() || start > target || ends_behind(timed(from.events(), start), target)) == (
            !iter.cut() || tick > target || ends_behind(timed(iter.events(), tick), target)),
        decreases iter.bytes().len() - iter.position(),
    {
        if tick > target {
            return true;
        }
        proof {
            lemma_step(iter.bytes(), iter.position(), iter.status());
        }
        if iter.at_cut_meta() {
            return false;
        }
        let ghost events = iter.events();
        let ghost before = tick;
        match iter.next_event() {
            None => return true,
            Some((delta, _)) => {
                tick = tick.saturating_add(delta);
                proof {
                    assert(events.drop_first() =~= iter.events());
                    assert(tick == later(before, delta));
                    lemma_timed_last(iter.events(), tick);
                    let rest = timed(iter.events(), tick);
                    let all = timed(events, before);
                    assert(all.len() == rest.len() + 1);
                    if rest.len() > 0 {
                        assert(all.last() == rest.last());
                    } else {
                        assert(all.last() == all[0]);
                    }
                }
            },
        }
    }
}

/// The last tick is no sooner than the start.
proof fn lemma_timed_last(events: Seq<(u32, MidiEvent<Seq<u8>>)>, tick: u32)
    ensures
        timed(events, tick).len() == events.len(),
        timed(events, tick).len() > 0 ==> timed(events, tick).last().0 >= tick,
    decreases events.len(),
{
    if events.len() > 0 {
        lemma_timed_last(events.drop_first(), later(tick, events[0].0));
    }
}

/// Some track has the next event as long as there are events to come.
proof fn lemma_some_next(queues: Seq<Seq<(u32, MidiEvent<Seq<u8>>)>>, i: int)
    requires
        0 <= i < queues.len(),
        queues[i].len() > 0,
    ensures
        exists|j: int| is_next(queues, j),
    decreases queues[i][0].0, i,
{
    if !is_next(queues, i) {
        let j = choose|j: int|
            0 <= j < queues.len() && (#[trigger] queues[j]).len() > 0 && !(queues[i][0].0
                < queues[j][0].0 || (queues[i][0].0 == queues[j][0].0 && i <= j));
        lemma_some_next(queues, j);
    }
}

proof fn lemma_run_complete(state: LoaderState, target: u32, i: int)
    requires
        0 <= i < state.queues.len(),
    ensures
        state.run(target).queues.len() == state.queues.len(),
        state.run(target).queues[i].len() > 0 ==> state.run(target).queues[i][0].0 > target,
    decreases pending(state.queues),
{
    if exists|j: int| is_next(state.queues, j) {
        let j = choose|j: int| is_next(state.queues, j);
        if state.queues[j][0].0 <= target {
            lemma_pending_less(state.queues, j);
            lemma_run_complete(state.take(j), target, i);
        }
    } else if state.queues[i].len() > 0 {
        lemma_some_next(state.queues, i);
    }
}

/// When everything up to `target` has happened, no event up to `target` is left
/// at the head of a track. Where `target` is the last tick, no event is left.
pub proof fn lemma_advance_complete(state: LoaderState, target: u32, i: int)
    requires
        0 <= i < state.queues.len(),
    ensures
        state.advance(target).queues.len() == state.queues.len(),
        state.advance(target).queues[i].len() > 0 ==> state.advance(target).queues[i][0].0
            > target,
        target == u32::MAX ==> state.advance(target).queues[i].len() == 0,
{
    lemma_run_complete(state.limited(), target, i);
}

proof fn lemma_run_bounded(state: LoaderState, target: u32)
    requires
        state.finished.len() <= state.max_finished,
    ensures
        state.run(target).finished.len() <= state.max_finished,
        state.run(target).max_finished == state.max_finished,
    decreases pending(state.queues),
{
    if exists|j: int| is_next(state.queues, j) {
        let j = choose|j: int| is_next(state.queues, j);
        if state.queues[j][0].0 <= target {
            lemma_pending_less(state.queues, j);
            lemma_run_bounded(state.take(j), target);
        }
    }
}

/// Whatever the limit is, and however many notes were kept before, no more than
/// that many finished notes are kept when events have happened.
pub proof fn lemma_finished_bounded(state: LoaderState, target: u32)
    ensures
        state.advance(target).finished.len() <= state.max_finished,
        state.advance(target).max_finished == state.max_finished,
{
    lemma_run_bounded(state.limited(), target);
}

proof fn lemma_run_in_stages(state: LoaderState, first: u32, second: u32)
    requires
        first <= second,
    ensures
        state.run(first).run(second) == state.run(second),
    decreases pending(state.queues),
{
    if exists|j: int| is_next(state.queues, j) {
        let j = choose|j: int| is_next(state.queues, j);
        if state.queues[j][0].0 <= first {
            lemma_pending_less(state.queues, j);
            lemma_run_in_stages(state.take(j), first, second);
        }
    }
}

/// Going to a place in two stages comes to the same as going there at once, and
/// going there a second time changes nothing.
pub proof fn lemma_advance_in_stages(state: LoaderState, first: u32, second: u32)
    requires
        first <= second,
    ensures
        state.advance(first).advance(second) == state.advance(second),
{
    lemma_finished_bounded(state, first);
    lemma_run_in_stages(state.limited(), first, second);
}

/// Forgetting old notes only takes notes from the front that ended before `min_end`.
pub proof fn lemma_prune_old(state: LoaderState, min_end: u32)
    ensures
        ({
            let after = state.prune(min_end);
            let gone = state.finished.len() - after.finished.len();
            &&& gone >= 0
            &&& after.finished == state.finished.skip(gone)
            &&& forall|i: int| 0 <= i < gone ==> (#[trigger] state.finished[i]).end_tick < min_end
            &&& after.finished.len() > 0 ==> after.finished[0].end_tick >= min_end
            &&& after.queues == state.queues
            &&& after.active == state.active
            &&& after.max_finished == state.max_finished
        }),
    decreases state.finished.len(),
{
    let after = state.prune(min_end);
    if state.finished.len() > 0 && state.finished[0].end_tick < min_end {
        let next = LoaderState { finished: state.finished.drop_first(), ..state };
        lemma_prune_old(next, min_end);
        let gone = state.finished.len() - after.finished.len();
        assert(after.finished =~= state.finished.skip(gone));
        assert forall|i: int| 0 <= i < gone implies (#[trigger] state.finished[i]).end_tick
            < min_end by {
            if i > 0 {
                assert(next.finished[i - 1] == state.finished[i]);
            }
        }
    } else {
        assert(after.finished =~= state.finished.skip(0));
    }
}

/// A frame has at most 10,000 notes. Where it has fewer, it holds every finished
/// note in view, and every note of it starts no later than `limit`.
pub proof fn lemma_frame(state: LoaderState, limit: TickPoint, min_end: TickPoint, note: PackedNote)
    ensures
        state.frame(limit, min_end).len() <= MAX_FRAME_NOTES,
        state.frame(limit, min_end).len() < MAX_FRAME_NOTES && state.finished.contains(note)
            && in_view(note, limit, min_end) ==> state.frame(limit, min_end).contains(note),
        state.frame(limit, min_end).contains(note) ==> !limit.precedes(single(note.start_tick)),
{
    let finished = finished_in_view(state.finished, limit, min_end);
    let end = provisional_end(limit.clamped());
    let n = state.active.len() as int;
    let held = held_notes(state.active, n, limit, end);
    let all = finished + held;
    lemma_finished_in_view(state.finished, limit, min_end, note);
    lemma_held_start(state.active, n, limit, end, note);
    if all.len() <= MAX_FRAME_NOTES && finished.contains(note) {
        let i = choose|i: int| 0 <= i < finished.len() && finished[i] == note;
        assert(all[i] == note);
    }
    if capped(all).contains(note) {
        let i = choose|i: int| 0 <= i < capped(all).len() && capped(all)[i] == note;
        if i < finished.len() {
            assert(finished[i] == note);
        } else {
            assert(held[i - finished.len()] == note);
        }
    }
}

proof fn lemma_finished_in_view(
    finished: Seq<PackedNote>,
    limit: TickPoint,
    min_end: TickPoint,
    note: PackedNote,
)
    ensures
        finished_in_view(finished, limit, min_end).contains(note) <==> finished.contains(note)
            && in_view(note, limit, min_end),
    decreases finished.len(),
{
    if finished.len() > 0 {
        let rest = finished.drop_last();
        let found = finished_in_view(rest, limit, min_end);
        let all = finished_in_view(finished, limit, min_end);
        lemma_finished_in_view(rest, limit, min_end, note);
        if rest.contains(note) {
            let i = choose|i: int| 0 <= i < rest.len() && rest[i] == note;
            assert(finished[i] == note);
        }
        if found.contains(note) {
            let i = choose|i: int| 0 <= i < found.len() && found[i] == note;
            assert(all[i] == note);
        }
        if finished.contains(note) {
            let i = choose|i: int| 0 <= i < finished.len() && finished[i] == note;
            if i < rest.len() {
                assert(rest[i] == note);
            } else if in_view(note, limit, min_end) {
                assert(all[all.len() - 1] == note);
            }
        }
        if all.contains(note) {
            let i = choose|i: int| 0 <= i < all.len() && all[i] == note;
            if i < found.len() {
                assert(found[i] == note);
            } else {
                assert(finished[finished.len() - 1] == note);
            }
        }
    }
}

proof fn lemma_held_start(
    active: Seq<Seq<Option<(u32, u8)>>>,
    n: int,
    limit: TickPoint,
    end: u32,
    note: PackedNote,
)
    ensures
        held_notes(active, n, limit, end).contains(note) ==> !limit.precedes(
            single(note.start_tick),
        ),
    decreases n,
{
    if n > 0 {
        let before = held_notes(active, n - 1, limit, end);
        let track = ((n - 1) % 0x1_0000) as u16;
        let keys = key_notes(active[n - 1], 128, track, limit, end);
        let all = before + keys;
        lemma_held_start(active, n - 1, limit, end, note);
        lemma_key_start(active[n - 1], 128, track, limit, end, note);
        if all.contains(note) {
            let i = choose|i: int| 0 <= i < all.len() && all[i] == note;
            if i < before.len() {
                assert(before[i] == note);
            } else {
                assert(keys[i - before.len()] == note);
            }
        }
    }
}

proof fn lemma_key_start(
    keys: Seq<Option<(u32, u8)>>,
    n: int,
    track: u16,
    limit: TickPoint,
    end: u32,
    note: PackedNote,
)
    ensures
        key_notes(keys, n, track, limit, end).contains(note) ==> !limit.precedes(
            single(note.start_tick),
        ),
    decreases n,
{
    if n > 0 {
        let before = key_notes(keys, n - 1, track, limit, end);
        let all = key_notes(keys, n, track, limit, end);
        lemma_key_start(keys, n - 1, track, limit, end, note);
        if all.contains(note) {
            let i = choose|i: int| 0 <= i < all.len() && all[i] == note;
            if i < before.len() {
                assert(before[i] == note);
            }
        }
    }
}

/// The notes of one track, in their order.
pub open spec fn of_track(notes: Seq<PackedNote>, track: u16) -> Seq<PackedNote>
    decreases notes.len(),
{
    if notes.len() == 0 {
        seq![]
    } else if notes.last().track == track {
        of_track(notes.drop_last(), track).push(notes.last())
    } else {
        of_track(notes.drop_last(), track)
    }
}

proof fn lemma_of_track_push(notes: Seq<PackedNote>, note: PackedNote, track: u16)
    ensures
        of_track(notes.push(note), track) == if note.track == track {
            of_track(notes, track).push(note)
        } else {
            of_track(notes, track)
        },
{
    assert(notes.push(note).drop_last() =~= notes);
}

/// Whether track `t` stands where the notes of that track alone stand after
/// some of its cues, with `events` still to come.
spec fn in_step(
    state: LoaderState,
    t: int,
    notes: NoteState,
    events: Seq<(u32, MidiEvent<Seq<u8>>)>,
) -> bool {
    &&& 0 <= t < state.queues.len() <= 0x1_0000
    &&& state.active.len() == state.queues.len()
    &&& state.finished.len() + pending(state.queues) <= state.max_finished
    &&& of_track(state.finished, t as u16) == notes.notes
    &&& state.active[t] == notes.active
    &&& notes.track == t
    &&& state.queues[t] == timed(events, notes.tick)
}

proof fn lemma_release_in_step(
    state: LoaderState,
    tick: u32,
    j: int,
    key: u8,
    t: int,
    notes: NoteState,
)
    requires
        0 <= t < state.active.len() <= 0x1_0000,
        0 <= j < state.active.len(),
        state.finished.len() < state.max_finished,
    ensures
        ({
            let after = state.release(tick, j, key);
            &&& after.active.len() == state.active.len()
            &&& after.max_finished == state.max_finished
            &&& after.finished.len() <= state.finished.len() + 1
            &&& j != t ==> of_track(after.finished, t as u16) == of_track(state.finished, t as u16)
            &&& j != t ==> after.active[t] == state.active[t]
            &&& j == t && of_track(state.finished, t as u16) == notes.notes && state.active[t]
                == notes.active && notes.track == t && notes.tick == tick ==> {
                &&& of_track(after.finished, t as u16) == notes.close(key).notes
                &&& after.active[t] == notes.close(key).active
            }
        }),
{
    if key < 128 {
        match state.active[j][key as int] {
            Some((since, velocity)) => {
                let note = PackedNote::of(since, tick, key, velocity, (j % 0x1_0000) as u16);
                lemma_of_track_push(state.finished, note, t as u16);
            },
            None => {},
        }
    }
}

/// How many of the events at the head of a queue happen up to `target`.
pub open spec fn due(queue: Seq<(u32, MidiEvent<Seq<u8>>)>, target: u32) -> int
    decreases queue.len(),
{
    if queue.len() == 0 || queue[0].0 > target {
        0
    } else {
        1 + due(queue.drop_first(), target)
    }
}

proof fn lemma_due(queue: Seq<(u32, MidiEvent<Seq<u8>>)>, target: u32)
    ensures
        0 <= due(queue, target) <= queue.len(),
        target == u32::MAX ==> due(queue, target) == queue.len(),
    decreases queue.len(),
{
    if queue.len() > 0 {
        lemma_due(queue.drop_first(), target);
    }
}

proof fn lemma_in_step(
    state: LoaderState,
    t: int,
    notes: NoteState,
    events: Seq<(u32, MidiEvent<Seq<u8>>)>,
    target: u32,
)
    requires
        in_step(state, t, notes, events),
    ensures
        ({
            let end = state.run(target);
            let alone = notes.run(cues_of(events.take(due(timed(events, notes.tick), target))));
            &&& of_track(end.finished, t as u16) == alone.notes
            &&& end.active[t] == alone.active
        }),
    decreases pending(state.queues),
{
    let queue = timed(events, notes.tick);
    let n = due(queue, target);
    lemma_timed_last(events, notes.tick);
    lemma_due(queue, target);
    let goes_on = exists|j: int| is_next(state.queues, j) && state.queues[j][0].0 <= target;
    let j = choose|j: int| is_next(state.queues, j);
    if goes_on {
        let i = choose|i: int| is_next(state.queues, i) && state.queues[i][0].0 <= target;
        lemma_next_unique(state.queues, i, j);
        let next = state.take(j);
        let (tick, event) = state.queues[j][0];
        lemma_pending_less(state.queues, j);
        let now = notes.wait(events[0].0);
        match cue_of(event) {
            Cue::Strike { key, .. } => lemma_release_in_step(state, tick, j, key, t, now),
            Cue::Release { key } => lemma_release_in_step(state, tick, j, key, t, now),
            _ => {},
        }
        if j == t {
            let rest = events.drop_first();
            assert(state.queues[t].drop_first() =~= timed(rest, now.tick));
            lemma_in_step(next, t, notes.step(events[0].0, cue_of(event)), rest, target);
            assert(queue == state.queues[t]);
            assert(queue[0].0 <= target);
            assert(n == 1 + due(timed(rest, now.tick), target));
            lemma_due(timed(rest, now.tick), target);
            lemma_timed_last(rest, now.tick);
            let cues = cues_of(events.take(n));
            assert(cues.drop_first() =~= cues_of(rest.take(n - 1)));
            assert(cues[0] == (events[0].0, cue_of(events[0].1)));
        } else {
            lemma_in_step(next, t, notes, events, target);
        }
    } else {
        if state.queues[t].len() > 0 {
            lemma_some_next(state.queues, t);
            assert(is_next(state.queues, j));
            assert(state.queues[j][0].0 > target);
        }
        assert(n == 0);
        assert(cues_of(events.take(0)) =~= seq![]);
        assert(state.run(target) == state);
    }
}

/// A loader that reads up to `target`, with room for all notes, has finished for each
/// track the notes that the track has by itself when its events up to `target` have
/// happened, in the same order, and holds the same keys.
pub proof fn lemma_streams_up_to(tracks: Seq<Seq<u8>>, max_finished: nat, t: int, target: u32)
    requires
        0 <= t < tracks.len() <= 0x1_0000,
        pending(fresh(tracks).queues) <= max_finished,
    ensures
        ({
            let start = LoaderState { max_finished, ..fresh(tracks) };
            let end = start.advance(target);
            let events = track_events(tracks[t], 0, None);
            let alone = NoteState::start(t as u16).run(
                cues_of(events.take(due(timed(events, 0), target))),
            );
            &&& of_track(end.finished, t as u16) == alone.notes
            &&& end.active[t] == alone.active
        }),
{
    let start = LoaderState { max_finished, ..fresh(tracks) };
    assert(start.active[t] =~= NoteState::start(t as u16).active);
    lemma_in_step(start, t, NoteState::start(t as u16), track_events(tracks[t], 0, None), target);
}

/// A loader that reads a whole file, with room for all notes, finishes for each
/// track the notes that the track has by itself, in the same order, and holds
/// the same keys at the end.
pub proof fn lemma_streams_all_notes(tracks: Seq<Seq<u8>>, max_finished: nat, t: int)
    requires
        0 <= t < tracks.len() <= 0x1_0000,
        pending(fresh(tracks).queues) <= max_finished,
    ensures
        ({
            let start = LoaderState { max_finished, ..fresh(tracks) };
            let end = start.advance(u32::MAX);
            let alone = NoteState::start(t as u16).run(cues_of_bytes(tracks[t]));
            &&& of_track(end.finished, t as u16) == alone.notes
            &&& end.active[t] == alone.active
        }),
{
    let events = track_events(tracks[t], 0, None);
    lemma_streams_up_to(tracks, max_finished, t, u32::MAX);
    lemma_due(timed(events, 0), u32::MAX);
    lemma_timed_last(events, 0);
    assert(events.take(events.len() as int) =~= events);
}

} // verus!
