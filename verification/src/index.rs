//! An index over notes for range queries.

use vstd::prelude::*;

use crate::note::{in_order, sort_by_tick, PackedNote, Ticked};
use crate::tick::{lemma_single_exact, single, to_single, TickPoint};

verus! {

/// Notes in the order of their starts, with the place in that order at which
/// each stretch of ticks, called a chunk, begins.
#[derive(Debug)]
pub struct NoteIndex {
    notes: Vec<PackedNote>,
    chunk_starts: Vec<usize>,
    chunk_ticks: u32,
    max_end_tick: u32,
}

/// The last end of some notes, or 0.
pub open spec fn last_end(notes: Seq<PackedNote>) -> u32
    decreases notes.len(),
{
    if notes.len() == 0 {
        0
    } else {
        let rest = last_end(notes.drop_last());
        if notes.last().end_tick > rest {
            notes.last().end_tick
        } else {
            rest
        }
    }
}

/// How many chunks an index over notes with this last end has.
pub open spec fn chunk_count(max_end_tick: u32, chunk_ticks: u32) -> int {
    if max_end_tick > 0 {
        max_end_tick / chunk_ticks + 2
    } else {
        1
    }
}

/// Whether `i` is the place of the first note that starts in `chunk` or later, or
/// the number of notes where there is none.
pub open spec fn is_chunk_start(
    notes: Seq<PackedNote>,
    chunk_ticks: u32,
    chunk: int,
    i: int,
) -> bool {
    &&& 0 <= i <= notes.len()
    &&& i < notes.len() ==> notes[i].start_tick / chunk_ticks >= chunk
    &&& forall|k: int| 0 <= k < i ==> (#[trigger] notes[k]).start_tick / chunk_ticks < chunk
}

/// The notes from `from` on that sound somewhere from `start` to `end`, up to the
/// first that starts behind `end`.
pub open spec fn queried(
    notes: Seq<PackedNote>,
    from: int,
    start: TickPoint,
    end: TickPoint,
) -> Seq<PackedNote>
    decreases notes.len() - from,
{
    if from < 0 || from >= notes.len() || !end.covers(single(notes[from].start_tick)) {
        seq![]
    } else if notes[from].meets(start, end) {
        seq![notes[from]] + queried(notes, from + 1, start, end)
    } else {
        queried(notes, from + 1, start, end)
    }
}

/// The last end of the notes.
fn find_last_end(notes: &Vec<PackedNote>) -> (r: u32)
    ensures
        r == last_end(notes@),
{
    let mut max: u32 = 0;
    let mut i: usize = 0;
    while i < notes.len()
        invariant
            i <= notes@.len(),
            max == last_end(notes@.take(i as int)),
        decreases notes@.len() - i,
    {
        assert(notes@.take(i + 1).drop_last() =~= notes@.take(i as int));
        if notes[i].end_tick > max {
            max = notes[i].end_tick;
        }
        i += 1;
    }
    assert(notes@.take(i as int) =~= notes@);
    max
}

/// No note ends behind the last end, which, if not 0, is the end of a note.
pub proof fn lemma_last_end(notes: Seq<PackedNote>)
    ensures
        forall|i: int| 0 <= i < notes.len() ==> (#[trigger] notes[i]).end_tick <= last_end(notes),
        last_end(notes) > 0 ==> exists|i: int|
            0 <= i < notes.len() && (#[trigger] notes[i]).end_tick == last_end(notes),
    decreases notes.len(),
{
    if notes.len() > 0 {
        let rest = notes.drop_last();
        lemma_last_end(rest);
        assert forall|i: int| 0 <= i < notes.len() implies (#[trigger] notes[i]).end_tick
            <= last_end(notes) by {
            if i < rest.len() {
                assert(rest[i] == notes[i]);
            }
        }
        if last_end(notes) > 0 {
            if last_end(notes) == notes.last().end_tick {
                assert(notes[notes.len() - 1].end_tick == last_end(notes));
            } else {
                let i = choose|i: int|
                    0 <= i < rest.len() && (#[trigger] rest[i]).end_tick == last_end(rest);
                assert(notes[i].end_tick == last_end(notes));
            }
        }
    }
}

/// The last end does not depend on the order of the notes.
proof fn lemma_last_end_order(a: Seq<PackedNote>, b: Seq<PackedNote>)
    requires
        a.to_multiset() == b.to_multiset(),
    ensures
        last_end(a) == last_end(b),
{
    lemma_last_end_most(a, b);
    lemma_last_end_most(b, a);
}

proof fn lemma_last_end_most(a: Seq<PackedNote>, b: Seq<PackedNote>)
    requires
        a.to_multiset() == b.to_multiset(),
    ensures
        last_end(a) <= last_end(b),
{
    broadcast use vstd::seq_lib::group_to_multiset_ensures;

    lemma_last_end(a);
    lemma_last_end(b);
    if last_end(a) > 0 {
        let i = choose|i: int| 0 <= i < a.len() && (#[trigger] a[i]).end_tick == last_end(a);
        assert(a.contains(a[i]));
        assert(a.to_multiset().count(a[i]) > 0);
        assert(b.contains(a[i]));
        let k = choose|k: int| 0 <= k < b.len() && b[k] == a[i];
        assert(b[k].end_tick <= last_end(b));
    }
}

/// Whether `at` is the place of the first of the first `n` notes in the chunks from
/// `chunk` to before `stop`, or the number of all notes where there is none.
spec fn first_in_chunks(
    notes: Seq<PackedNote>,
    chunk_ticks: u32,
    n: int,
    chunk: int,
    stop: int,
    at: usize,
) -> bool {
    &&& at <= notes.len()
    &&& at < notes.len() ==> at < n && chunk <= notes[at as int].start_tick / chunk_ticks < stop
    &&& forall|k: int|
        0 <= k < n && chunk <= (#[trigger] notes[k]).start_tick / chunk_ticks < stop ==> at <= k
}

impl NoteIndex {
    /// The notes in the order of their starts.
    pub closed spec fn view(&self) -> Seq<PackedNote> {
        self.notes@
    }

    /// The length of a chunk in ticks.
    pub closed spec fn chunk(self) -> u32 {
        self.chunk_ticks
    }

    /// The number of chunks.
    pub open spec fn count(self) -> int {
        chunk_count(last_end(self@), self.chunk())
    }

    #[verifier::type_invariant]
    spec fn inv(self) -> bool {
        &&& in_order(self.notes@)
        &&& self.chunk_ticks > 0
        &&& self.max_end_tick == last_end(self.notes@)
        &&& self.chunk_starts@.len() == chunk_count(self.max_end_tick, self.chunk_ticks)
        &&& forall|c: int|
            0 <= c < self.chunk_starts@.len() ==> is_chunk_start(
                self.notes@,
                self.chunk_ticks,
                c,
                #[trigger] self.chunk_starts@[c] as int,
            )
    }

    /// Builds the index with chunks of `chunk_ticks` ticks, or of one tick where
    /// that is 0.
    ///
    /// The number of chunks has to fit 32 bits.
    pub fn build(notes: Vec<PackedNote>, chunk_ticks: u32) -> (r: NoteIndex)
        requires
            last_end(notes@) / (if chunk_ticks > 0 {
                chunk_ticks
            } else {
                1
            }) + 2 <= u32::MAX,
        ensures
            r@.to_multiset() == notes@.to_multiset(),
            in_order(r@),
            r.chunk() == if chunk_ticks > 0 {
                chunk_ticks
            } else {
                1
            },
    {
        let chunk_ticks: u32 = if chunk_ticks > 0 {
            chunk_ticks
        } else {
            1
        };
        let ghost given = notes@;
        let mut notes = notes;
        sort_by_tick(&mut notes);
        let max_end_tick: u32 = find_last_end(&notes);
        proof {
            lemma_last_end_order(given, notes@);
        }
        let num_chunks: usize = if max_end_tick > 0 {
            (max_end_tick / chunk_ticks + 2) as usize
        } else {
            1
        };
        let len: usize = notes.len();
        let mut chunk_starts: Vec<usize> = vec![len; num_chunks];
        let mut behind: usize = len;
        let mut i: usize = 0;
        while i < len
            invariant
                i <= len == notes@.len(),
                chunk_ticks > 0,
                chunk_starts@.len() == num_chunks,
                forall|c: int|
                    0 <= c < num_chunks ==> first_in_chunks(
                        notes@,
                        chunk_ticks,
                        i as int,
                        c,
                        c + 1,
                        #[trigger] chunk_starts@[c],
                    ),
                first_in_chunks(
                    notes@,
                    chunk_ticks,
                    i as int,
                    num_chunks as int,
                    0x1_0000_0000,
                    behind,
                ),
            decreases len - i,
        {
            let chunk: u32 = notes[i].start_tick / chunk_ticks;
            if (chunk as u64) < num_chunks as u64 {
                let c: usize = chunk as usize;
                if i < chunk_starts[c] {
                    chunk_starts[c] = i;
                }
            } else if i < behind {
                behind = i;
            }
            i += 1;
        }
        let mut last: usize = behind;
        let mut j: usize = num_chunks;
        while j > 0
            invariant
                j <= num_chunks == chunk_starts@.len(),
                len == notes@.len(),
                chunk_ticks > 0,
                is_chunk_start(notes@, chunk_ticks, j as int, last as int),
                forall|c: int|
                    0 <= c < j ==> first_in_chunks(
                        notes@,
                        chunk_ticks,
                        len as int,
                        c,
                        c + 1,
                        #[trigger] chunk_starts@[c],
                    ),
                forall|c: int|
                    j <= c < num_chunks ==> is_chunk_start(
                        notes@,
                        chunk_ticks,
                        c,
                        #[trigger] chunk_starts@[c] as int,
                    ),
            decreases j,
        {
            j -= 1;
            if chunk_starts[j] > last {
                chunk_starts[j] = last;
            } else {
                last = chunk_starts[j];
            }
        }
        NoteIndex { notes, chunk_starts, chunk_ticks, max_end_tick }
    }

    /// Whether `i` is the place from which on notes may sound at `min_tick`: the
    /// first note of the chunk two before that of `min_tick`, or the number of
    /// notes where `min_tick` lies behind the last chunk.
    pub open spec fn is_start_index(self, min_tick: TickPoint, i: int) -> bool {
        let chunk = (min_tick.clamped() / self.chunk()) as int;
        if min_tick.reached_by(0) {
            i == 0
        } else if chunk >= self.count() {
            i == self@.len()
        } else {
            is_chunk_start(
                self@,
                self.chunk(),
                if chunk >= 2 {
                    chunk - 2
                } else {
                    0
                },
                i,
            )
        }
    }

    /// The place from which on notes may sound at `min_tick`.
    ///
    /// Notes before it may sound there too, where they last longer than two chunks.
    pub fn get_start_index(&self, min_tick: TickPoint) -> (r: usize)
        ensures
            self.is_start_index(min_tick, r as int),
            r <= self@.len(),
    {
        proof {
            use_type_invariant(self);
        }
        if min_tick.is_at_or_before(0) {
            return 0;
        }
        let chunk: u32 = min_tick.clamp() / self.chunk_ticks;
        if chunk as u64 >= self.chunk_starts.len() as u64 {
            self.notes.len()
        } else {
            let safe_chunk: usize = (chunk as usize).saturating_sub(2);
            self.chunk_starts[safe_chunk]
        }
    }

    /// The notes in the order of their starts.
    pub fn notes(&self) -> (r: &[PackedNote])
        ensures
            r@ == self@,
            in_order(r@),
    {
        proof {
            use_type_invariant(self);
        }
        self.notes.as_slice()
    }

    /// The number of notes.
    pub fn len(&self) -> (r: usize)
        ensures
            r == self@.len(),
    {
        self.notes.len()
    }

    /// Whether there are no notes.
    pub fn is_empty(&self) -> (r: bool)
        ensures
            r == (self@.len() == 0),
    {
        self.notes.len() == 0
    }

    /// The last end of the notes, or 0.
    pub fn max_end_tick(&self) -> (r: u32)
        ensures
            r == last_end(self@),
    {
        proof {
            use_type_invariant(self);
        }
        self.max_end_tick
    }

    /// The notes that sound somewhere from `start_tick` to `end_tick`, among those
    /// from the start index of `start_tick` on.
    pub fn query_range(&self, start_tick: TickPoint, end_tick: TickPoint) -> (r: Vec<PackedNote>)
        ensures
            exists|from: int|
                #[trigger] self.is_start_index(start_tick, from) && r@ == queried(
                    self@,
                    from,
                    start_tick,
                    end_tick,
                ),
            in_order(self@),
    {
        proof {
            use_type_invariant(self);
        }
        let from: usize = self.get_start_index(start_tick);
        let mut found: Vec<PackedNote> = Vec::new();
        let mut i: usize = from;
        assert(found@ + queried(self@, from as int, start_tick, end_tick) =~= queried(
            self@,
            from as int,
            start_tick,
            end_tick,
        ));
        while i < self.notes.len() && end_tick.is_at_or_after(to_single(self.notes[i].start_tick))
            invariant
                i <= self.notes@.len(),
                self.notes@ == self@,
                queried(self@, from as int, start_tick, end_tick) == found@ + queried(
                    self@,
                    i as int,
                    start_tick,
                    end_tick,
                ),
            decreases self.notes@.len() - i,
        {
            let ghost before = found@;
            let ghost rest = queried(self@, i + 1, start_tick, end_tick);
            if self.notes[i].overlaps(start_tick, end_tick) {
                found.push(self.notes[i]);
                assert(found@ + rest =~= before + (seq![self@[i as int]] + rest));
            }
            i += 1;
        }
        assert(queried(self@, i as int, start_tick, end_tick) =~= seq![]);
        assert(self.is_start_index(start_tick, from as int));
        found
    }
}

impl Clone for NoteIndex {
    fn clone(&self) -> (r: NoteIndex)
        ensures
            r@ == self@,
            r.chunk() == self.chunk(),
    {
        proof {
            use_type_invariant(self);
        }
        let notes = self.notes.clone();
        let chunk_starts = self.chunk_starts.clone();
        assert(notes@ =~= self.notes@);
        assert(chunk_starts@ =~= self.chunk_starts@);
        NoteIndex {
            notes,
            chunk_starts,
            chunk_ticks: self.chunk_ticks,
            max_end_tick: self.max_end_tick,
        }
    }
}

/// There is only one start index, so that a query has only one result.
pub proof fn lemma_start_index_unique(index: NoteIndex, min_tick: TickPoint, i: int, j: int)
    requires
        index.is_start_index(min_tick, i),
        index.is_start_index(min_tick, j),
    ensures
        i == j,
{
    let notes = index@;
    if i < j {
        assert(notes[i] == notes[i]);
    } else if j < i {
        assert(notes[j] == notes[j]);
    }
}

/// A query finds only notes of the index that sound in the range.
pub proof fn lemma_query_sound(
    notes: Seq<PackedNote>,
    from: int,
    start: TickPoint,
    end: TickPoint,
    i: int,
)
    requires
        0 <= i < queried(notes, from, start, end).len(),
    ensures
        notes.contains(queried(notes, from, start, end)[i]),
        queried(notes, from, start, end)[i].meets(start, end),
    decreases notes.len() - from,
{
    let rest = queried(notes, from + 1, start, end);
    if notes[from].meets(start, end) {
        if i > 0 {
            lemma_query_sound(notes, from + 1, start, end, i - 1);
        }
    } else {
        lemma_query_sound(notes, from + 1, start, end, i);
    }
}

/// Where all ticks are exact in single precision, a query from `from` on finds
/// every note behind that place that sounds in the range.
proof fn lemma_query_finds(
    notes: Seq<PackedNote>,
    from: int,
    start: TickPoint,
    end: TickPoint,
    k: int,
)
    requires
        in_order(notes),
        forall|i: int| 0 <= i < notes.len() ==> (#[trigger] notes[i]).start_tick <= 0x100_0000,
        0 <= from <= k < notes.len(),
        notes[k].meets(start, end),
    ensures
        queried(notes, from, start, end).contains(notes[k]),
    decreases notes.len() - from,
{
    let found = queried(notes, from, start, end);
    lemma_single_exact(notes[from].start_tick);
    lemma_single_exact(notes[k].start_tick);
    assert(notes[from].ticked() <= notes[k].ticked());
    if from == k {
        assert(found[0] == notes[k]);
    } else {
        let rest = queried(notes, from + 1, start, end);
        lemma_query_finds(notes, from + 1, start, end, k);
        let j = choose|j: int| 0 <= j < rest.len() && rest[j] == notes[k];
        if notes[from].meets(start, end) {
            assert(found[j + 1] == notes[k]);
        }
    }
}

/// A query misses no note that sounds in the range and lasts no longer than two
/// chunks, where all notes start and end by tick 2^24.
pub proof fn lemma_query_complete(
    index: NoteIndex,
    from: int,
    start: TickPoint,
    end: TickPoint,
    k: int,
)
    requires
        in_order(index@),
        index.chunk() > 0,
        forall|i: int|
            0 <= i < index@.len() ==> (#[trigger] index@[i]).start_tick <= 0x100_0000
                && index@[i].end_tick <= 0x100_0000,
        index.is_start_index(start, from),
        0 <= k < index@.len(),
        index@[k].meets(start, end),
        index@[k].end_tick - index@[k].start_tick <= 2 * index.chunk(),
    ensures
        queried(index@, from, start, end).contains(index@[k]),
{
    let notes = index@;
    let ticks = index.chunk() as int;
    let note = notes[k];
    lemma_single_exact(note.end_tick);
    lemma_last_end(notes);
    if !start.reached_by(0) {
        let at = start.clamped() as int;
        assert(at <= note.end_tick);
        let chunk = at / ticks;
        assert(note.end_tick / index.chunk() <= last_end(notes) / index.chunk()) by {
            vstd::arithmetic::div_mod::lemma_div_is_ordered(
                note.end_tick as int,
                last_end(notes) as int,
                ticks,
            );
        }
        assert(chunk <= note.end_tick as int / ticks) by {
            vstd::arithmetic::div_mod::lemma_div_is_ordered(at, note.end_tick as int, ticks);
        }
        assert(chunk - 2 <= note.start_tick as int / ticks) by {
            vstd::arithmetic::div_mod::lemma_div_is_ordered(
                at - 2 * ticks,
                note.start_tick as int,
                ticks,
            );
            vstd::arithmetic::div_mod::lemma_hoist_over_denominator(at, -2, ticks as nat);
        }
        assert(from <= k);
    }
    lemma_query_finds(notes, from, start, end, k);
}

} // verus!
