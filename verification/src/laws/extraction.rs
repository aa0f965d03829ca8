//! Notes and tempo changes, and the cues that they come from.

use vstd::prelude::*;

use crate::cue::{last_tick, later, strikes, tempos, Cue};
use crate::loader::{all_notes, changes_at, first_at, tempo_list, track_notes, NoteState};
use crate::note::PackedNote;

verus! {

/// The sum of the first `n` delta times.
pub open spec fn elapsed(cues: Seq<(u32, Cue)>, n: int) -> int
    decreases n,
{
    if n <= 0 {
        0
    } else {
        elapsed(cues, n - 1) + cues[n - 1].0
    }
}

/// The tick at which cue `i` happens: the sum of the delta times up to it and its own,
/// held at the last tick there is.
pub open spec fn tick_of(cues: Seq<(u32, Cue)>, i: int) -> int {
    if elapsed(cues, i + 1) > 0xFFFF_FFFF {
        0xFFFF_FFFF
    } else {
        elapsed(cues, i + 1)
    }
}

/// Whether a cue strikes a key or lets it go.
pub open spec fn touches(cue: Cue, key: u8) -> bool {
    match cue {
        Cue::Strike { key: k, .. } => k == key,
        Cue::Release { key: k } => k == key,
        _ => false,
    }
}

/// Whether no cue between `i` and `j` touches the key.
pub open spec fn untouched(cues: Seq<(u32, Cue)>, key: u8, i: int, j: int) -> bool {
    forall|m: int| i < m < j ==> !touches((#[trigger] cues[m]).1, key)
}

/// Whether the first cue behind `i` that touches the key is `j`.
pub open spec fn next_touch(cues: Seq<(u32, Cue)>, key: u8, i: int, j: int) -> bool {
    &&& i < j < cues.len()
    &&& touches(cues[j].1, key)
    &&& untouched(cues, key, i, j)
}

/// Whether cue `i` strikes one of the 128 keys.
pub open spec fn strikes_key(cues: Seq<(u32, Cue)>, i: int) -> bool {
    cues[i].1 matches Cue::Strike { key, .. } && key < 128
}

/// Whether a note starts with cue `i`: the cue strikes its key with its velocity, at its
/// start tick.
pub open spec fn starts_with(cues: Seq<(u32, Cue)>, track: u16, note: PackedNote, i: int) -> bool {
    &&& 0 <= i < cues.len()
    &&& cues[i].1 matches Cue::Strike { key, velocity } && key < 128 && note.key == key
        && note.velocity == (if velocity < 128 {
        velocity as int
    } else {
        velocity - 128
    })
    &&& note.start_tick == tick_of(cues, i)
    &&& note.track == track
}

/// Whether a note that starts with cue `i` ends right: at the next cue that touches its
/// key, or with the track where there is none.
pub open spec fn ends_right(cues: Seq<(u32, Cue)>, note: PackedNote, i: int) -> bool {
    ||| exists|j: int| #[trigger]
        next_touch(cues, note.key, i, j) && note.end_tick == tick_of(cues, j)
    ||| untouched(cues, note.key, i, cues.len() as int) && note.end_tick == tick_of(
        cues,
        cues.len() - 1,
    )
}

/// Whether `source` names, for each note, the cue that it starts with: the notes start
/// and end right, no two start with the same cue, and every strike starts a note.
pub open spec fn sources(
    cues: Seq<(u32, Cue)>,
    track: u16,
    notes: Seq<PackedNote>,
    source: Seq<int>,
) -> bool {
    &&& source.len() == notes.len()
    &&& forall|k: int|
        0 <= k < notes.len() ==> starts_with(cues, track, notes[k], #[trigger] source[k])
            && ends_right(cues, notes[k], source[k])
    &&& forall|a: int, b: int|
        0 <= a < b < source.len() ==> #[trigger] source[a] != #[trigger] source[b]
    &&& forall|i: int| 0 <= i < cues.len() && #[trigger] strikes_key(cues, i) ==> source.contains(i)
}

/// Whether a note has started and ended inside the first `n` cues.
spec fn complete(cues: Seq<(u32, Cue)>, track: u16, note: PackedNote, i: int, n: int) -> bool {
    &&& starts_with(cues, track, note, i)
    &&& exists|j: int| #[trigger]
        next_touch(cues, note.key, i, j) && j < n && note.end_tick == tick_of(cues, j)
}

/// Whether what is known of a key after `n` cues says that cue `i` struck it last.
spec fn held_since(
    cues: Seq<(u32, Cue)>,
    key: int,
    n: int,
    active: Option<(u32, u8)>,
    i: int,
) -> bool {
    match active {
        None => i < 0,
        Some((start, velocity)) => {
            &&& 0 <= i < n <= cues.len()
            &&& cues[i].1 == (Cue::Strike { key: key as u8, velocity })
            &&& start == tick_of(cues, i)
            &&& untouched(cues, key as u8, i, n)
        },
    }
}

/// The key that cue `i` strikes.
spec fn struck_key(cues: Seq<(u32, Cue)>, i: int) -> int {
    match cues[i].1 {
        Cue::Strike { key, .. } => key as int,
        _ => 0,
    }
}

spec fn all_complete(
    cues: Seq<(u32, Cue)>,
    track: u16,
    notes: Seq<PackedNote>,
    n: int,
    source: Seq<int>,
) -> bool {
    &&& source.len() == notes.len()
    &&& forall|k: int|
        0 <= k < notes.len() ==> complete(cues, track, notes[k], #[trigger] source[k], n)
}

spec fn all_held(
    cues: Seq<(u32, Cue)>,
    n: int,
    active: Seq<Option<(u32, u8)>>,
    held: Seq<int>,
) -> bool {
    &&& active.len() == 128
    &&& held.len() == 128
    &&& forall|key: int|
        0 <= key < 128 ==> held_since(cues, key, n, active[key], #[trigger] held[key])
}

spec fn all_distinct(source: Seq<int>, held: Seq<int>) -> bool {
    &&& forall|a: int, b: int|
        0 <= a < b < source.len() ==> #[trigger] source[a] != #[trigger] source[b]
    &&& forall|a: int, key: int|
        0 <= a < source.len() && 0 <= key < 128 ==> #[trigger] source[a] != #[trigger] held[key]
    &&& forall|a: int| 0 <= a < source.len() ==> #[trigger] source[a] >= 0
}

spec fn all_found(cues: Seq<(u32, Cue)>, n: int, source: Seq<int>, held: Seq<int>) -> bool {
    forall|i: int|
        0 <= i < n && #[trigger] strikes_key(cues, i) ==> source.contains(i) || held[struck_key(
            cues,
            i,
        )] == i
}

/// The state after `n` cues, with the cues that its notes and its held keys come from.
spec fn traced(
    cues: Seq<(u32, Cue)>,
    track: u16,
    n: int,
    state: NoteState,
    source: Seq<int>,
    held: Seq<int>,
) -> bool {
    &&& 0 <= n <= cues.len()
    &&& state.track == track
    &&& state.tick == tick_of(cues, n - 1)
    &&& all_complete(cues, track, state.notes, n, source)
    &&& all_held(cues, n, state.active, held)
    &&& all_distinct(source, held)
    &&& all_found(cues, n, source, held)
}

proof fn lemma_elapsed_least(cues: Seq<(u32, Cue)>, n: int)
    ensures
        elapsed(cues, n) >= 0,
    decreases n,
{
    if n > 0 {
        lemma_elapsed_least(cues, n - 1);
    }
}

/// The tick goes on by the delta time, up to the last tick there is.
proof fn lemma_tick_goes_on(cues: Seq<(u32, Cue)>, n: int, tick: u32)
    requires
        0 <= n < cues.len(),
        tick == tick_of(cues, n - 1),
    ensures
        later(tick, cues[n].0) == tick_of(cues, n),
{
    lemma_elapsed_least(cues, n);
}

/// A key that nothing touches stays as it is.
proof fn lemma_still_held(
    cues: Seq<(u32, Cue)>,
    n: int,
    key: int,
    active: Option<(u32, u8)>,
    i: int,
)
    requires
        0 <= n < cues.len(),
        0 <= key < 128,
        held_since(cues, key, n, active, i),
        !touches(cues[n].1, key as u8),
    ensures
        held_since(cues, key, n + 1, active, i),
{
}

/// A note that was complete stays so.
proof fn lemma_still_complete(
    cues: Seq<(u32, Cue)>,
    track: u16,
    notes: Seq<PackedNote>,
    n: int,
    source: Seq<int>,
)
    requires
        all_complete(cues, track, notes, n, source),
    ensures
        all_complete(cues, track, notes, n + 1, source),
{
    assert forall|k: int| 0 <= k < notes.len() implies complete(
        cues,
        track,
        notes[k],
        #[trigger] source[k],
        n + 1,
    ) by {
        assert(complete(cues, track, notes[k], source[k], n));
    }
}

/// A cue that touches no key below 128 changes nothing.
proof fn lemma_trace_untouched(
    cues: Seq<(u32, Cue)>,
    track: u16,
    n: int,
    state: NoteState,
    next: NoteState,
    source: Seq<int>,
    held: Seq<int>,
)
    requires
        n < cues.len(),
        traced(cues, track, n, state, source, held),
        next.notes == state.notes,
        next.active == state.active,
        next.track == state.track,
        next.tick == later(state.tick, cues[n].0),
        forall|key: u8| key < 128 ==> !touches(cues[n].1, key),
    ensures
        traced(cues, track, n + 1, next, source, held),
{
    lemma_tick_goes_on(cues, n, state.tick);
    lemma_still_complete(cues, track, state.notes, n, source);
    assert forall|key: int| 0 <= key < 128 implies held_since(
        cues,
        key,
        n + 1,
        next.active[key],
        #[trigger] held[key],
    ) by {
        lemma_still_held(cues, n, key, state.active[key], held[key]);
    }
    assert forall|i: int| 0 <= i < n + 1 && #[trigger] strikes_key(cues, i) implies source.contains(
        i,
    ) || held[struck_key(cues, i)] == i by {
        if i == n {
            assert(touches(cues[n].1, struck_key(cues, n) as u8));
        }
    }
}

/// The sources after a cue that touches a key: where the key was held, its note has
/// ended.
spec fn source_after(source: Seq<int>, held: Seq<int>, key: u8) -> Seq<int> {
    if held[key as int] >= 0 {
        source.push(held[key as int])
    } else {
        source
    }
}

/// A held key is touched: its note ends here.
proof fn lemma_trace_close(
    cues: Seq<(u32, Cue)>,
    track: u16,
    n: int,
    state: NoteState,
    key: u8,
    source: Seq<int>,
    held: Seq<int>,
)
    requires
        n < cues.len(),
        traced(cues, track, n, state, source, held),
        key < 128,
        touches(cues[n].1, key),
    ensures
        ({
            let closed = state.wait(cues[n].0).close(key);
            let after = source_after(source, held, key);
            &&& closed.track == track
            &&& closed.tick == tick_of(cues, n)
            &&& closed.active =~= state.active.update(key as int, None)
            &&& all_complete(cues, track, closed.notes, n + 1, after)
        }),
{
    lemma_tick_goes_on(cues, n, state.tick);
    lemma_still_complete(cues, track, state.notes, n, source);
    let closed = state.wait(cues[n].0).close(key);
    let after = source_after(source, held, key);
    let i = held[key as int];
    assert(held_since(cues, key as int, n, state.active[key as int], i));
    match state.active[key as int] {
        Some((start, velocity)) => {
            let note = PackedNote::of(start, closed.tick, key, velocity, track);
            assert(next_touch(cues, key, i, n));
            assert(note.key == key);
            assert(complete(cues, track, note, i, n + 1));
            assert forall|k: int| 0 <= k < closed.notes.len() implies complete(
                cues,
                track,
                closed.notes[k],
                #[trigger] after[k],
                n + 1,
            ) by {
                if k < source.len() {
                    assert(after[k] == source[k]);
                    assert(complete(cues, track, state.notes[k], source[k], n + 1));
                }
            }
        },
        None => {},
    }
}

/// What stays true of the cues when a key is touched.
proof fn lemma_trace_rest(
    cues: Seq<(u32, Cue)>,
    n: int,
    key: u8,
    active: Seq<Option<(u32, u8)>>,
    source: Seq<int>,
    held: Seq<int>,
    new: int,
    now: Option<(u32, u8)>,
)
    requires
        0 <= n < cues.len(),
        key < 128,
        touches(cues[n].1, key),
        all_held(cues, n, active, held),
        all_distinct(source, held),
        all_found(cues, n, source, held),
        new == n || new < 0,
        strikes_key(cues, n) ==> new == n,
        held_since(cues, key as int, n + 1, now, new),
        forall|a: int| 0 <= a < source.len() ==> (#[trigger] source[a]) < n,
    ensures
        ({
            let after = source_after(source, held, key);
            let hold = held.update(key as int, new);
            &&& all_held(cues, n + 1, active.update(key as int, now), hold)
            &&& all_distinct(after, hold)
            &&& all_found(cues, n + 1, after, hold)
        }),
{
    let after = source_after(source, held, key);
    let hold = held.update(key as int, new);
    let keys = active.update(key as int, now);
    assert forall|k: int| 0 <= k < 128 implies held_since(
        cues,
        k,
        n + 1,
        keys[k],
        #[trigger] hold[k],
    ) by {
        if k != key {
            assert(held_since(cues, k, n, active[k], held[k]));
            lemma_still_held(cues, n, k, active[k], held[k]);
        }
    }
    assert forall|a: int, k: int| 0 <= a < after.len() && 0 <= k < 128 implies #[trigger] after[a]
        != #[trigger] hold[k] by {
        assert(held_since(cues, k, n, active[k], held[k]));
        assert(held_since(cues, key as int, n, active[key as int], held[key as int]));
        if a < source.len() {
            assert(after[a] == source[a]);
            if k != key {
                assert(source[a] != held[k]);
            }
        } else if k != key {
            assert(after[a] == held[key as int]);
        }
    }
    assert forall|a: int, b: int| 0 <= a < b < after.len() implies #[trigger] after[a]
        != #[trigger] after[b] by {
        assert(after[a] == source[a]);
        if b < source.len() {
            assert(after[b] == source[b]);
        } else {
            assert(source[a] != held[key as int]);
        }
    }
    assert forall|i: int| 0 <= i < n + 1 && #[trigger] strikes_key(cues, i) implies after.contains(i)
        || hold[struck_key(cues, i)] == i by {
        if i < n {
            let k = struck_key(cues, i);
            if source.contains(i) {
                let a = choose|a: int| 0 <= a < source.len() && source[a] == i;
                assert(after[a] == i);
            } else if k == key {
                assert(after[source.len() as int] == i);
            }
        } else {
            assert(struck_key(cues, n) == key);
        }
    }
}

proof fn lemma_sources_before(
    cues: Seq<(u32, Cue)>,
    track: u16,
    notes: Seq<PackedNote>,
    n: int,
    source: Seq<int>,
)
    requires
        all_complete(cues, track, notes, n, source),
    ensures
        forall|a: int| 0 <= a < source.len() ==> (#[trigger] source[a]) < n,
{
    assert forall|a: int| 0 <= a < source.len() implies (#[trigger] source[a]) < n by {
        assert(complete(cues, track, notes[a], source[a], n));
    }
}

/// One more cue.
proof fn lemma_trace_step(
    cues: Seq<(u32, Cue)>,
    track: u16,
    n: int,
    state: NoteState,
    source: Seq<int>,
    held: Seq<int>,
) -> (r: (Seq<int>, Seq<int>))
    requires
        n < cues.len(),
        traced(cues, track, n, state, source, held),
    ensures
        traced(cues, track, n + 1, state.step(cues[n].0, cues[n].1), r.0, r.1),
{
    let next = state.step(cues[n].0, cues[n].1);
    lemma_tick_goes_on(cues, n, state.tick);
    lemma_sources_before(cues, track, state.notes, n, source);
    match cues[n].1 {
        Cue::Strike { key, velocity } => {
            if key < 128 {
                let now = Some((next.tick, velocity));
                lemma_trace_close(cues, track, n, state, key, source, held);
                lemma_trace_rest(cues, n, key, state.active, source, held, n, now);
                let closed = state.wait(cues[n].0).close(key);
                assert(next.active =~= state.active.update(key as int, now));
                assert(next.notes == closed.notes);
                (source_after(source, held, key), held.update(key as int, n))
            } else {
                lemma_trace_untouched(cues, track, n, state, next, source, held);
                (source, held)
            }
        },
        Cue::Release { key } => {
            if key < 128 {
                lemma_trace_close(cues, track, n, state, key, source, held);
                lemma_trace_rest(cues, n, key, state.active, source, held, -1, None);
                (source_after(source, held, key), held.update(key as int, -1))
            } else {
                lemma_trace_untouched(cues, track, n, state, next, source, held);
                (source, held)
            }
        },
        _ => {
            lemma_trace_untouched(cues, track, n, state, next, source, held);
            (source, held)
        },
    }
}

/// The last cue by itself.
proof fn lemma_run_last(state: NoteState, cues: Seq<(u32, Cue)>)
    requires
        cues.len() > 0,
    ensures
        state.run(cues) == state.run(cues.drop_last()).step(cues.last().0, cues.last().1),
    decreases cues.len(),
{
    if cues.len() == 1 {
        let next = state.step(cues[0].0, cues[0].1);
        assert(cues.drop_last() =~= seq![]);
        assert(state.run(cues.drop_last()) == state);
        assert(next.run(cues.drop_first()) == next);
    } else {
        let rest = cues.drop_first();
        let next = state.step(cues[0].0, cues[0].1);
        lemma_run_last(next, rest);
        assert(rest.drop_last() =~= cues.drop_last().drop_first());
        assert(rest.last() == cues.last());
        assert(cues.drop_last()[0] == cues[0]);
    }
}

proof fn lemma_trace(cues: Seq<(u32, Cue)>, track: u16, n: int) -> (r: (Seq<int>, Seq<int>))
    requires
        0 <= n <= cues.len(),
    ensures
        traced(cues, track, n, NoteState::start(track).run(cues.take(n)), r.0, r.1),
    decreases n,
{
    let start = NoteState::start(track);
    if n == 0 {
        let held = Seq::new(128, |k: int| -1int);
        assert(start.run(cues.take(0)) == start);
        assert forall|key: int| 0 <= key < 128 implies held_since(
            cues,
            key,
            0,
            start.active[key],
            #[trigger] held[key],
        ) by {}
        (seq![], held)
    } else {
        let (source, held) = lemma_trace(cues, track, n - 1);
        let so_far = cues.take(n);
        lemma_run_last(start, so_far);
        assert(so_far.drop_last() =~= cues.take(n - 1));
        assert(so_far.last() == cues[n - 1]);
        lemma_trace_step(cues, track, n - 1, start.run(cues.take(n - 1)), source, held)
    }
}

/// Whether the notes that have ended so far have right sources, and the held ones will.
spec fn closing(
    cues: Seq<(u32, Cue)>,
    track: u16,
    state: NoteState,
    source: Seq<int>,
    held: Seq<int>,
) -> bool {
    &&& source.len() == state.notes.len()
    &&& state.track == track
    &&& state.tick == tick_of(cues, cues.len() - 1)
    &&& forall|k: int|
        0 <= k < state.notes.len() ==> starts_with(cues, track, state.notes[k], #[trigger] source[k])
            && ends_right(cues, state.notes[k], source[k])
    &&& all_held(cues, cues.len() as int, state.active, held)
    &&& all_distinct(source, held)
    &&& all_found(cues, cues.len() as int, source, held)
}

proof fn lemma_closing(
    cues: Seq<(u32, Cue)>,
    track: u16,
    state: NoteState,
    source: Seq<int>,
    held: Seq<int>,
    key: int,
) -> (r: Seq<int>)
    requires
        0 <= key <= 128,
        closing(cues, track, state, source, held),
        forall|k: int| 0 <= k < key ==> #[trigger] held[k] < 0,
    ensures
        sources(cues, track, state.close_from(key).notes, r),
    decreases 128 - key,
{
    let len = cues.len() as int;
    if key == 128 {
        assert forall|i: int| 0 <= i < len && #[trigger] strikes_key(cues, i) implies source.contains(
            i,
        ) by {
            let k = struck_key(cues, i);
            assert(held[k] < 0);
        }
        source
    } else {
        let next = state.close(key as u8);
        let after = source_after(source, held, key as u8);
        let hold = held.update(key, -1);
        assert(held_since(cues, key, len, state.active[key], held[key]));
        if let Some((start, velocity)) = state.active[key] {
            let note = PackedNote::of(start, state.tick, key as u8, velocity, track);
            assert(note.key == key);
            assert(untouched(cues, note.key, held[key], len));
            assert(starts_with(cues, track, note, held[key]));
            assert(ends_right(cues, note, held[key]));
        }
        assert(next.active =~= state.active.update(key, None));
        assert forall|k: int| 0 <= k < next.notes.len() implies starts_with(
            cues,
            track,
            next.notes[k],
            #[trigger] after[k],
        ) && ends_right(cues, next.notes[k], after[k]) by {
            if k < source.len() {
                assert(after[k] == source[k]);
            }
        }
        assert forall|k: int| 0 <= k < 128 implies held_since(
            cues,
            k,
            len,
            next.active[k],
            #[trigger] hold[k],
        ) by {
            if k != key {
                assert(held_since(cues, k, len, state.active[k], held[k]));
            }
        }
        assert forall|a: int, k: int|
            0 <= a < after.len() && 0 <= k < 128 implies #[trigger] after[a] != #[trigger] hold[k] by {
            assert(held_since(cues, k, len, state.active[k], held[k]));
            if a < source.len() {
                assert(after[a] == source[a]);
                if k != key {
                    assert(source[a] != held[k]);
                }
            }
        }
        assert forall|a: int, b: int| 0 <= a < b < after.len() implies #[trigger] after[a]
            != #[trigger] after[b] by {
            assert(after[a] == source[a]);
            if b < source.len() {
                assert(after[b] == source[b]);
            } else {
                assert(source[a] != held[key]);
            }
        }
        assert forall|i: int| 0 <= i < len && #[trigger] strikes_key(cues, i) implies after.contains(
            i,
        ) || hold[struck_key(cues, i)] == i by {
            if source.contains(i) {
                let a = choose|a: int| 0 <= a < source.len() && source[a] == i;
                assert(after[a] == i);
            } else if struck_key(cues, i) == key {
                assert(after[source.len() as int] == i);
            }
        }
        lemma_closing(cues, track, next, after, hold, key + 1)
    }
}

/// Every note of a track comes from a strike of one of the 128 keys: it starts at the
/// tick of that strike, with its key and velocity, and ends at the next strike or
/// release of the key, or with the track where there is none. No two notes come from
/// one strike, and every strike gives a note.
pub proof fn lemma_notes_from_strikes(cues: Seq<(u32, Cue)>, track: u16)
    ensures
        exists|source: Seq<int>| sources(cues, track, track_notes(cues, track), source),
{
    let len = cues.len() as int;
    let (source, held) = lemma_trace(cues, track, len);
    assert(cues.take(len) =~= cues);
    let state = NoteState::start(track).run(cues);
    assert forall|k: int| 0 <= k < state.notes.len() implies starts_with(
        cues,
        track,
        state.notes[k],
        #[trigger] source[k],
    ) && ends_right(cues, state.notes[k], source[k]) by {
        assert(complete(cues, track, state.notes[k], source[k], len));
    }
    let r = lemma_closing(cues, track, state, source, held, 0);
    assert(sources(cues, track, track_notes(cues, track), r));
}

/// Whether a note comes from a strike and ends at the next cue that touches its key.
pub open spec fn struck_and_ended(cues: Seq<(u32, Cue)>, track: u16, note: PackedNote) -> bool {
    exists|i: int, j: int| #[trigger]
        starts_with(cues, track, note, i) && #[trigger] next_touch(cues, note.key, i, j)
            && note.end_tick == tick_of(cues, j)
}

/// After some cues a key is held just where the last cue that touched it struck it, since
/// the tick of that strike and with its velocity; and every note that has ended comes
/// from a strike and ended at the next cue that touched its key.
pub proof fn lemma_state_from_strikes(cues: Seq<(u32, Cue)>, track: u16, key: u8)
    requires
        key < 128,
    ensures
        ({
            let state = NoteState::start(track).run(cues);
            &&& match state.active[key as int] {
                Some((since, velocity)) => exists|i: int|
                    0 <= i < cues.len() && (#[trigger] cues[i]).1 == (Cue::Strike { key, velocity })
                        && since == tick_of(cues, i) && untouched(cues, key, i, cues.len() as int),
                None => forall|i: int|
                    0 <= i < cues.len() && ((#[trigger] cues[i]).1 matches Cue::Strike { key: k, .. }
                        && k == key) ==> !untouched(cues, key, i, cues.len() as int),
            }
            &&& forall|k: int|
                0 <= k < state.notes.len() ==> struck_and_ended(
                    cues,
                    track,
                    #[trigger] state.notes[k],
                )
        }),
{
    let len = cues.len() as int;
    let (source, held) = lemma_trace(cues, track, len);
    assert(cues.take(len) =~= cues);
    let state = NoteState::start(track).run(cues);
    let now = held[key as int];
    assert(held_since(cues, key as int, len, state.active[key as int], now));
    match state.active[key as int] {
        Some((since, velocity)) => {
            assert(cues[now].1 == (Cue::Strike { key, velocity }));
        },
        None => {
            assert forall|i: int|
                0 <= i < cues.len() && ((#[trigger] cues[i]).1 matches Cue::Strike { key: k, .. } && k
                    == key) implies !untouched(cues, key, i, len) by {
                assert(strikes_key(cues, i));
                assert(struck_key(cues, i) == key);
                let a = choose|a: int| 0 <= a < source.len() && source[a] == i;
                assert(complete(cues, track, state.notes[a], source[a], len));
                let j = choose|j: int| #[trigger]
                    next_touch(cues, state.notes[a].key, i, j) && j < len;
                assert(touches(cues[j].1, key));
            }
        },
    }
    assert forall|k: int| 0 <= k < state.notes.len() implies struck_and_ended(
        cues,
        track,
        #[trigger] state.notes[k],
    ) by {
        let i = source[k];
        assert(complete(cues, track, state.notes[k], i, len));
        let j = choose|j: int| #[trigger]
            next_touch(cues, state.notes[k].key, i, j) && j < len && state.notes[k].end_tick
                == tick_of(cues, j);
        assert(starts_with(cues, track, state.notes[k], i));
        assert(next_touch(cues, state.notes[k].key, i, j));
    }
}

/// The notes of several tracks are those of each, one track after the other, each with
/// the number of its track.
pub proof fn lemma_notes_of_tracks(tracks: Seq<Seq<(u32, Cue)>>, n: int)
    requires
        0 < n <= tracks.len() <= 0x1_0000,
    ensures
        ({
            let before = all_notes(tracks, n - 1);
            let last = track_notes(tracks[n - 1], (n - 1) as u16);
            &&& all_notes(tracks, 0).len() == 0
            &&& all_notes(tracks, n) == before + last
            &&& forall|k: int| 0 <= k < last.len() ==> (#[trigger] last[k]).track == n - 1
        }),
{
    let cues = tracks[n - 1];
    let track = (n - 1) as u16;
    lemma_notes_from_strikes(cues, track);
    let last = track_notes(cues, track);
    let source = choose|source: Seq<int>| sources(cues, track, last, source);
    assert forall|k: int| 0 <= k < last.len() implies (#[trigger] last[k]).track == n - 1 by {
        assert(starts_with(cues, track, last[k], source[k]));
    }
}

/// What one more cue adds to the tempo changes, the last tick and the number of strikes.
pub proof fn lemma_one_more_cue(cues: Seq<(u32, Cue)>, delta: u32, cue: Cue, keys: int)
    ensures
        ({
            let more = cues.push((delta, cue));
            let now = tick_of(more, cues.len() as int);
            &&& last_tick(more, 0) == now
            &&& tempos(more, 0) == match cue {
                Cue::Tempo { microseconds } => tempos(cues, 0).push((now as u32, microseconds)),
                _ => tempos(cues, 0),
            }
            &&& strikes(more, keys) == strikes(cues, keys) + match cue {
                Cue::Strike { key, .. } => if key < keys {
                    1int
                } else {
                    0
                },
                _ => 0,
            }
            &&& tempos(seq![], 0).len() == 0
            &&& last_tick(seq![], 0) == 0
            &&& strikes(seq![], keys) == 0
        }),
{
    let more = cues.push((delta, cue));
    lemma_push_from(cues, delta, cue, keys, 0);
    lemma_last_tick(cues, 0, 0);
    lemma_elapsed_prefix(cues, more, cues.len() as int);
    lemma_elapsed_least(cues, cues.len() as int);
    assert(cues.skip(0) =~= cues);
}

proof fn lemma_elapsed_prefix(a: Seq<(u32, Cue)>, b: Seq<(u32, Cue)>, n: int)
    requires
        n <= a.len(),
        n <= b.len(),
        forall|i: int| 0 <= i < n ==> a[i] == b[i],
    ensures
        elapsed(a, n) == elapsed(b, n),
    decreases n,
{
    if n > 0 {
        lemma_elapsed_prefix(a, b, n - 1);
    }
}

/// The last tick, from cue `n` on, is the sum of all delta times.
proof fn lemma_last_tick(cues: Seq<(u32, Cue)>, n: int, tick: u32)
    requires
        0 <= n <= cues.len(),
        tick == tick_of(cues, n - 1),
    ensures
        last_tick(cues.skip(n), tick) == tick_of(cues, cues.len() - 1),
    decreases cues.len() - n,
{
    if n < cues.len() {
        lemma_tick_goes_on(cues, n, tick);
        assert(cues.skip(n).drop_first() =~= cues.skip(n + 1));
        lemma_last_tick(cues, n + 1, later(tick, cues[n].0));
    }
}

proof fn lemma_push_from(cues: Seq<(u32, Cue)>, delta: u32, cue: Cue, keys: int, tick: u32)
    ensures
        ({
            let more = cues.push((delta, cue));
            let now = later(last_tick(cues, tick), delta);
            &&& last_tick(more, tick) == now
            &&& tempos(more, tick) == match cue {
                Cue::Tempo { microseconds } => tempos(cues, tick).push((now, microseconds)),
                _ => tempos(cues, tick),
            }
            &&& strikes(more, keys) == strikes(cues, keys) + match cue {
                Cue::Strike { key, .. } => if key < keys {
                    1int
                } else {
                    0
                },
                _ => 0,
            }
        }),
    decreases cues.len(),
{
    let more = cues.push((delta, cue));
    if cues.len() == 0 {
        let none = more.drop_first();
        assert(none =~= seq![]);
        let now = later(tick, delta);
        assert(last_tick(none, now) == now);
        assert(tempos(none, now) =~= seq![]);
        assert(strikes(none, keys) == 0);
        assert(tempos(more, tick) =~= match cue {
            Cue::Tempo { microseconds } => tempos(cues, tick).push((now, microseconds)),
            _ => tempos(cues, tick),
        });
    } else {
        let first = later(tick, cues[0].0);
        let rest = cues.drop_first();
        assert(more.drop_first() =~= rest.push((delta, cue)));
        lemma_push_from(rest, delta, cue, keys, first);
        let now = later(last_tick(cues, tick), delta);
        assert(tempos(more, tick) =~= match cue {
            Cue::Tempo { microseconds } => tempos(cues, tick).push((now, microseconds)),
            _ => tempos(cues, tick),
        });
    }
}

/// Whether `changes[k]` is the first of the changes at its tick.
pub open spec fn first_there(changes: Seq<(u32, u32)>, k: int) -> bool {
    &&& 0 <= k < changes.len()
    &&& forall|m: int| 0 <= m < k ==> (#[trigger] changes[m]).0 != changes[k].0
}

proof fn lemma_first_at(changes: Seq<(u32, u32)>, tick: u32) -> (k: int)
    requires
        first_at(changes, tick) is Some,
    ensures
        first_there(changes, k),
        changes[k].0 == tick,
        first_at(changes, tick) == Some(changes[k]),
    decreases changes.len(),
{
    if changes[0].0 == tick {
        0
    } else {
        let rest = changes.drop_first();
        let k = lemma_first_at(rest, tick) + 1;
        assert forall|m: int| 0 <= m < k implies (#[trigger] changes[m]).0 != changes[k].0 by {
            if m > 0 {
                assert(rest[m - 1] == changes[m]);
            }
        }
        k
    }
}

/// Every entry of a tempo list is the first change at its tick, or the default of
/// 500,000 microseconds at tick 0 where nothing changes there. The ticks rise, and every
/// tick with a change, and tick 0, has an entry.
pub proof fn lemma_tempo_entries(changes: Seq<(u32, u32)>, r: Seq<(u32, u32)>, i: int, k: int)
    requires
        tempo_list(changes, r),
        0 <= i < r.len(),
    ensures
        (exists|m: int| #[trigger] first_there(changes, m) && changes[m] == r[i]) || (r[i] == (
            0u32,
            500_000u32,
        ) && forall|m: int| 0 <= m < changes.len() ==> (#[trigger] changes[m]).0 != 0),
        i > 0 ==> r[i - 1].0 < r[i].0,
        0 <= k < changes.len() ==> exists|j: int|
            0 <= j < r.len() && (#[trigger] r[j]).0 == changes[k].0,
        r[0].0 == 0,
{
    let all = changes.push((0u32, crate::loader::DEFAULT_TEMPO));
    assert(first_at(all, r[i].0) == Some(r[i]));
    let m = lemma_first_at(all, r[i].0);
    if m < changes.len() {
        assert(all[m] == changes[m]);
        assert forall|x: int| 0 <= x < m implies (#[trigger] changes[x]).0 != changes[m].0 by {
            assert(all[x] == changes[x]);
        }
        assert(first_there(changes, m));
    } else {
        assert forall|x: int| 0 <= x < changes.len() implies (#[trigger] changes[x]).0 != 0 by {
            assert(all[x] == changes[x]);
        }
    }
    if 0 <= k < changes.len() {
        assert(all[k] == changes[k]);
        assert(changes_at(r, all[k].0));
    }
    assert(all[changes.len() as int].0 == 0);
    assert(changes_at(r, 0));
    let z = choose|z: int| 0 <= z < r.len() && (#[trigger] r[z]).0 == 0;
    if z > 0 {
        assert(r[0].0 < r[z].0);
    }
}

/// Notes come in the order in which they end: one more cue leaves those that have ended
/// as they are, and adds at most one behind them, which ends at that cue.
pub proof fn lemma_notes_grow(cues: Seq<(u32, Cue)>, delta: u32, cue: Cue, track: u16)
    ensures
        ({
            let more = cues.push((delta, cue));
            let before = NoteState::start(track).run(cues).notes;
            let after = NoteState::start(track).run(more).notes;
            &&& before.len() <= after.len() <= before.len() + 1
            &&& after.take(before.len() as int) == before
            &&& after.len() > before.len() ==> after.last().end_tick == tick_of(
                more,
                cues.len() as int,
            ) && touches(cue, after.last().key)
        }),
{
    let more = cues.push((delta, cue));
    let start = NoteState::start(track);
    lemma_run_last(start, more);
    assert(more.drop_last() =~= cues);
    assert(more.last() == (delta, cue));
    let (source, held) = lemma_trace(more, track, cues.len() as int);
    assert(more.take(cues.len() as int) =~= cues);
    let before = start.run(cues);
    let after = start.run(more);
    lemma_tick_goes_on(more, cues.len() as int, before.tick);
    assert(after.notes.take(before.notes.len() as int) =~= before.notes);
}

/// Keys that are let go at the end, or all together, give their notes behind the others,
/// the low keys first, each with its start and velocity, and ending there.
pub proof fn lemma_close_in_order(state: NoteState, key: int)
    requires
        0 <= key < 128,
        state.active.len() == 128,
    ensures
        ({
            let more = match state.active[key] {
                Some((start_tick, velocity)) => state.notes.push(
                    PackedNote {
                        start_tick,
                        end_tick: state.tick,
                        key: key as u8,
                        velocity: if velocity < 128 {
                            velocity
                        } else {
                            (velocity - 128) as u8
                        },
                        track: state.track,
                    },
                ),
                None => state.notes,
            };
            state.close_from(key).notes == (NoteState {
                notes: more,
                active: state.active.update(key, None),
                ..state
            }).close_from(key + 1).notes
        }),
        state.close_from(128) == state,
{
    assert(state.active[key] is None ==> state.active.update(key, None) =~= state.active);
}

} // verus!
