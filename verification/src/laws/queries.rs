//! Range queries, and ticks in single precision.

use vstd::prelude::*;

use crate::index::{last_end, lemma_last_end, queried, NoteIndex};
use crate::note::{in_order, PackedNote, Ticked};
use crate::tick::{lemma_single_exact, single, single_unit, TickPoint};

verus! {

/// A note sounds somewhere in a range where it starts no later than the end of the range
/// and ends no sooner than its start.
pub proof fn lemma_note_meets(note: PackedNote, a: i64, a_past: bool, b: i64, b_past: bool)
    ensures
        note.meets(TickPoint::At { whole: a, past: a_past }, TickPoint::At { whole: b, past: b_past })
            <==> single(note.start_tick) <= b && (single(note.end_tick) > a || (single(
            note.end_tick,
        ) == a && !a_past)),
        !note.meets(TickPoint::Undefined, TickPoint::At { whole: b, past: b_past }),
        !note.meets(TickPoint::At { whole: a, past: a_past }, TickPoint::Undefined),
{
}

/// The notes from `from` on that start by tick `b` and end at tick `a` or behind it.
pub open spec fn between(notes: Seq<PackedNote>, from: int, a: int, b: int) -> Seq<PackedNote>
    decreases notes.len() - from,
{
    if from < 0 || from >= notes.len() {
        seq![]
    } else if notes[from].start_tick <= b && notes[from].end_tick >= a {
        seq![notes[from]] + between(notes, from + 1, a, b)
    } else {
        between(notes, from + 1, a, b)
    }
}

proof fn lemma_none_between(notes: Seq<PackedNote>, from: int, a: int, b: int)
    requires
        0 <= from,
        forall|i: int| from <= i < notes.len() ==> (#[trigger] notes[i]).start_tick > b,
    ensures
        between(notes, from, a, b) == Seq::<PackedNote>::empty(),
    decreases notes.len() - from,
{
    if from < notes.len() {
        assert(notes[from].start_tick > b);
        lemma_none_between(notes, from + 1, a, b);
    }
}

/// Where notes start and end by tick 2^24, a query for whole ticks gives just the notes
/// from its start on that start by the end of the range and end at its start or later,
/// in their order and each as often as it is there.
pub proof fn lemma_query_is_between(notes: Seq<PackedNote>, from: int, a: i64, b: i64)
    requires
        in_order(notes),
        0 <= from,
        forall|i: int|
            0 <= i < notes.len() ==> (#[trigger] notes[i]).start_tick <= 0x100_0000
                && notes[i].end_tick <= 0x100_0000,
    ensures
        queried(
            notes,
            from,
            TickPoint::At { whole: a, past: false },
            TickPoint::At { whole: b, past: false },
        ) == between(notes, from, a as int, b as int),
    decreases notes.len() - from,
{
    let start = TickPoint::At { whole: a, past: false };
    let end = TickPoint::At { whole: b, past: false };
    if from < notes.len() {
        lemma_single_exact(notes[from].start_tick);
        lemma_single_exact(notes[from].end_tick);
        if notes[from].start_tick > b {
            assert forall|i: int| from <= i < notes.len() implies (#[trigger] notes[i]).start_tick
                > b by {
                assert(notes[from].ticked() <= notes[i].ticked());
            }
            lemma_none_between(notes, from, a as int, b as int);
        } else {
            lemma_query_is_between(notes, from + 1, a, b);
        }
    }
}

/// The start index of a tick passes over no note that starts less than two chunks before
/// it, and goes back less than three chunks. Behind the last chunk, where all notes have
/// ended, it is the end of the notes.
pub proof fn lemma_start_index_place(index: NoteIndex, m: u32, past: bool, i: int, k: int)
    requires
        index.chunk() > 0,
        m > 0,
        index.is_start_index(TickPoint::At { whole: m as i64, past }, i),
        0 <= k < index@.len(),
    ensures
        0 <= i <= index@.len(),
        k < i && index@[k].start_tick + 2 * index.chunk() >= m ==> i == index@.len()
            && index@[k].end_tick < m,
        k == i ==> index@[k].start_tick + 3 * index.chunk() > m,
{
    let notes = index@;
    let ct = index.chunk() as int;
    let chunk = m as int / ct;
    let start = notes[k].start_tick as int;
    lemma_last_end(notes);
    assert(chunk * ct <= m < chunk * ct + ct) by (nonlinear_arith)
        requires
            ct > 0,
            m >= 0,
            chunk == m as int / ct,
    ;
    let q = start / ct;
    assert(q * ct <= start < q * ct + ct) by (nonlinear_arith)
        requires
            ct > 0,
            start >= 0,
            q == start / ct,
    ;
    let last = last_end(notes) as int;
    let p = last / ct;
    assert(p * ct <= last < p * ct + ct) by (nonlinear_arith)
        requires
            ct > 0,
            last >= 0,
            p == last / ct,
    ;
    if chunk >= index.count() {
        assert(notes[k].end_tick <= last);
        assert(last < m) by (nonlinear_arith)
            requires
                chunk >= p + 1 || last == 0,
                last < p * ct + ct,
                chunk * ct <= m,
                ct > 0,
                m > 0,
        ;
    } else {
        if k < i {
            assert(q < chunk - 2);
            assert(q * ct + ct + 2 * ct <= chunk * ct) by (nonlinear_arith)
                requires
                    q + 3 <= chunk,
                    ct > 0,
            ;
        }
        if k == i {
            assert(q >= chunk - 2);
            assert(q * ct + 2 * ct >= chunk * ct) by (nonlinear_arith)
                requires
                    q + 2 >= chunk,
                    ct > 0,
            ;
        }
    }
}

/// Whether a number is one of single precision, among those up to 2^32: a multiple of
/// a power of two by a factor of at most 24 bits.
pub open spec fn is_single(r: int, factor: int, unit: int) -> bool {
    &&& r == factor * unit
    &&& 0 <= factor <= 0x100_0000
    &&& unit == 1 || unit == 2 || unit == 4 || unit == 8 || unit == 16 || unit == 32 || unit == 64
        || unit == 128 || unit == 256
}

/// How far two numbers are apart.
pub open spec fn apart(a: int, b: int) -> int {
    if a >= b {
        a - b
    } else {
        b - a
    }
}

proof fn lemma_unit(tick: u32)
    ensures
        ({
            let u = single_unit(tick) as int;
            &&& is_single(u, 1, u)
            &&& tick < 0x100_0000 * u
            &&& u > 1 ==> 0x80_0000 * u <= tick
            &&& tick as int / u * u + tick as int % u == tick
            &&& 0 <= tick as int % u < u
            &&& 0 <= tick as int / u < 0x100_0000
        }),
{
    let u = single_unit(tick) as int;
    let x = tick as int;
    vstd::arithmetic::div_mod::lemma_fundamental_div_mod(x, u);
    vstd::arithmetic::div_mod::lemma_mod_bound(x, u);
    let below = x / u;
    let rest = x % u;
    assert(u * below == below * u) by (nonlinear_arith);
    assert(0 <= below < 0x100_0000) by (nonlinear_arith)
        requires
            x == u * below + rest,
            0 <= rest < u,
            0 <= x < 0x100_0000 * u,
    ;
}

/// A tick in single precision is a number of single precision, and none is nearer. Where
/// two are equally near, it is the one with the even factor.
pub proof fn lemma_single_nearest(tick: u32, r: int, factor: int, unit: int)
    requires
        is_single(r, factor, unit),
    ensures
        exists|f: int, u: int| #[trigger] is_single(single(tick), f, u),
        apart(single(tick), tick as int) <= apart(r, tick as int),
        apart(single(tick), tick as int) * 2 == single_unit(tick) ==> single(tick) / (single_unit(
            tick,
        ) as int) % 2 == 0,
{
    let u = single_unit(tick) as int;
    let below = tick as int / u;
    let rest = tick as int % u;
    lemma_unit(tick);
    let f = if 2 * rest < u || (2 * rest == u && below % 2 == 0) {
        below
    } else {
        below + 1
    };
    assert(single(tick) == f * u);
    assert(is_single(single(tick), f, u));
    assert((below + 1) * u == below * u + u) by (nonlinear_arith);
    assert(f * u / u == f) by (nonlinear_arith)
        requires
            u > 0,
    ;
    if unit >= u {
        let times = unit / u;
        assert(unit == times * u);
        assert(r == (factor * times) * u) by (nonlinear_arith)
            requires
                r == factor * unit,
                unit == times * u,
        ;
        let q = factor * times;
        if q <= below {
            assert(q * u <= below * u) by (nonlinear_arith)
                requires
                    q <= below,
                    u > 0,
            ;
        } else {
            assert(q * u >= (below + 1) * u) by (nonlinear_arith)
                requires
                    q >= below + 1,
                    u > 0,
            ;
        }
    } else {
        assert(2 * unit <= u);
        assert(r <= 0x80_0000 * u) by (nonlinear_arith)
            requires
                r == factor * unit,
                factor <= 0x100_0000,
                2 * unit <= u,
                unit > 0,
        ;
        assert(below >= 0x80_0000) by (nonlinear_arith)
            requires
                0x80_0000 * u <= tick,
                tick == below * u + rest,
                rest < u,
                u > 0,
        ;
        assert(0x80_0000 * u <= below * u) by (nonlinear_arith)
            requires
                below >= 0x80_0000,
                u > 0,
        ;
    }
}

/// At the start of a piece and before it, the start index is that of the first note.
pub proof fn lemma_start_index_first(index: NoteIndex, whole: i64, past: bool, i: int)
    requires
        whole < 0 || (whole == 0 && !past),
        index.is_start_index(TickPoint::At { whole, past }, i),
    ensures
        i == 0,
{
}

} // verus!
