//! Notes in twelve bytes, and sorting by tick.

use vstd::prelude::*;

use crate::tick::{single, to_single, TickPoint};

verus! {

/// A note of a track.
#[derive(Clone, Copy, Debug, PartialEq, Eq, Hash, Structural)]
pub struct PackedNote {
    /// The tick at which the key is struck.
    pub start_tick: u32,
    /// The tick at which it is let go.
    pub end_tick: u32,
    /// The key, 0 to 127.
    pub key: u8,
    /// The velocity, 0 to 127.
    pub velocity: u8,
    /// The track, counted from 0.
    pub track: u16,
}

impl PackedNote {
    /// The note with these parts; of key and velocity the low seven bits are kept.
    pub open spec fn of(
        start_tick: u32,
        end_tick: u32,
        key: u8,
        velocity: u8,
        track: u16,
    ) -> PackedNote {
        PackedNote { start_tick, end_tick, key: key % 128, velocity: velocity % 128, track }
    }

    /// A note with these parts; of key and velocity the low seven bits are kept.
    pub fn new(start_tick: u32, end_tick: u32, key: u8, velocity: u8, track: u16) -> (r: PackedNote)
        ensures
            r == PackedNote::of(start_tick, end_tick, key, velocity, track),
    {
        PackedNote { start_tick, end_tick, key: key % 128, velocity: velocity % 128, track }
    }

    /// How many ticks the note lasts; 0 where it ends before it starts.
    pub fn duration(&self) -> (r: u32)
        ensures
            r == if self.end_tick >= self.start_tick {
                self.end_tick - self.start_tick
            } else {
                0
            },
    {
        self.end_tick.saturating_sub(self.start_tick)
    }

    /// Whether the note, with its ticks in single precision, sounds somewhere
    /// from `start` to `end`.
    pub open spec fn meets(self, start: TickPoint, end: TickPoint) -> bool {
        end.covers(single(self.start_tick)) && start.reached_by(single(self.end_tick))
    }

    /// Whether the note, with its ticks in single precision, sounds somewhere
    /// from `start` to `end`.
    pub fn overlaps(&self, start: TickPoint, end: TickPoint) -> (r: bool)
        ensures
            r == self.meets(start, end),
    {
        end.is_at_or_after(to_single(self.start_tick)) && start.is_at_or_before(
            to_single(self.end_tick),
        )
    }
}

/// What has a place in time.
pub trait Ticked {
    /// The tick of the item.
    spec fn ticked(&self) -> u32;

    /// The tick of the item.
    fn tick(&self) -> (r: u32)
        ensures
            r == self.ticked(),
    ;
}

impl Ticked for PackedNote {
    open spec fn ticked(&self) -> u32 {
        self.start_tick
    }

    fn tick(&self) -> (r: u32) {
        self.start_tick
    }
}

impl Ticked for (u32, u32) {
    open spec fn ticked(&self) -> u32 {
        self.0
    }

    fn tick(&self) -> (r: u32) {
        self.0
    }
}

/// Whether the items come in the order of their ticks.
pub open spec fn in_order<T: Ticked>(items: Seq<T>) -> bool {
    forall|i: int, j: int|
        0 <= i <= j < items.len() ==> (#[trigger] items[i]).ticked() <= (
        #[trigger] items[j]).ticked()
}

/// Sorts with `sort_unstable_by_key` of std's slices, by the tick of each item.
///
/// Trusted: afterwards the items are the same, each as often as before, and
/// their ticks do not fall. Nothing is said of the order of items at one tick.
#[verifier::external_body]
pub(crate) fn sort_by_tick<T: Ticked>(items: &mut Vec<T>)
    ensures
        final(items)@.to_multiset() == old(items)@.to_multiset(),
        in_order(final(items)@),
{
    items.sort_unstable_by_key(|item| item.tick());
}

} // verus!
