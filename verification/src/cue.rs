//! What the events of a track mean for its notes.

use vstd::prelude::*;

verus! {

/// What one event does to the notes of a track.
#[derive(Clone, Copy, Debug, PartialEq, Eq, Structural)]
pub enum Cue {
    /// A key is struck with a velocity above 0.
    Strike { key: u8, velocity: u8 },
    /// A key is let go.
    Release { key: u8 },
    /// A quarter note takes this many microseconds from now on; never 0.
    Tempo { microseconds: u32 },
    /// Nothing.
    Other,
}

/// The tick `delta` ticks after `tick`, or the last tick there is.
pub open spec fn later(tick: u32, delta: u32) -> u32 {
    if tick + delta > u32::MAX {
        u32::MAX
    } else {
        (tick + delta) as u32
    }
}

/// How often a key below `keys` is struck.
pub open spec fn strikes(cues: Seq<(u32, Cue)>, keys: int) -> nat
    decreases cues.len(),
{
    if cues.len() == 0 {
        0
    } else {
        strikes(cues.drop_first(), keys) + match cues[0].1 {
            Cue::Strike { key, .. } => if key < keys {
                1nat
            } else {
                0
            },
            _ => 0,
        }
    }
}

/// The tick after the last cue, from `tick` on.
pub open spec fn last_tick(cues: Seq<(u32, Cue)>, tick: u32) -> u32
    decreases cues.len(),
{
    if cues.len() == 0 {
        tick
    } else {
        last_tick(cues.drop_first(), later(tick, cues[0].0))
    }
}

/// The tempo changes with their ticks, from `tick` on.
pub open spec fn tempos(cues: Seq<(u32, Cue)>, tick: u32) -> Seq<(u32, u32)>
    decreases cues.len(),
{
    if cues.len() == 0 {
        seq![]
    } else {
        let now = later(tick, cues[0].0);
        let rest = tempos(cues.drop_first(), now);
        match cues[0].1 {
            Cue::Tempo { microseconds } => seq![(now, microseconds)] + rest,
            _ => rest,
        }
    }
}

/// The strikes, the last tick and the tempo changes of a list with a first cue.
pub proof fn lemma_first_cue(delta: u32, cue: Cue, rest: Seq<(u32, Cue)>, tick: u32, keys: int)
    ensures
        ({
            let cues = seq![(delta, cue)] + rest;
            let now = later(tick, delta);
            &&& strikes(cues, keys) == strikes(rest, keys) + match cue {
                Cue::Strike { key, .. } => if key < keys {
                    1nat
                } else {
                    0
                },
                _ => 0,
            }
            &&& last_tick(cues, tick) == last_tick(rest, now)
            &&& tempos(cues, tick) == match cue {
                Cue::Tempo { microseconds } => seq![(now, microseconds)] + tempos(rest, now),
                _ => tempos(rest, now),
            }
        }),
{
    let cues = seq![(delta, cue)] + rest;
    assert(cues.drop_first() =~= rest);
    assert(cues[0] == (delta, cue));
}

} // verus!
