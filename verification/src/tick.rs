//! Places on the tick axis, and how ticks look in single precision.
//!
//! A view window is given in floating point. For every comparison with a tick
//! it is enough to know the whole number below a place and whether the place
//! lies past that number.

use vstd::prelude::*;

verus! {

/// A place on the tick axis.
#[derive(Clone, Copy, Debug, PartialEq, Eq, Structural)]
pub enum TickPoint {
    /// No place at all; no tick lies before, on or behind it.
    Undefined,
    /// At `whole`, or, with `past`, between `whole` and the next whole number.
    At { whole: i64, past: bool },
}

/// The step between neighbouring single-precision numbers around `tick`.
pub open spec fn single_unit(tick: u32) -> u32 {
    if tick < 0x100_0000 {
        1
    } else if tick < 0x200_0000 {
        2
    } else if tick < 0x400_0000 {
        4
    } else if tick < 0x800_0000 {
        8
    } else if tick < 0x1000_0000 {
        16
    } else if tick < 0x2000_0000 {
        32
    } else if tick < 0x4000_0000 {
        64
    } else if tick < 0x8000_0000 {
        128
    } else {
        256
    }
}

/// The single-precision number nearest to `tick`; of two equally near, the one
/// that is an even multiple of the step.
pub open spec fn single(tick: u32) -> int {
    let unit = single_unit(tick);
    let below = tick / unit;
    let rest = tick % unit;
    if 2 * rest < unit || (2 * rest == unit && below % 2 == 0) {
        below * unit
    } else {
        (below + 1) * unit
    }
}

/// Rounds a tick to single precision.
pub fn to_single(tick: u32) -> (r: i64)
    ensures
        r == single(tick),
        0 <= r <= 0x1_0000_0000,
{
    let unit: u32 = if tick < 0x100_0000 {
        1
    } else if tick < 0x200_0000 {
        2
    } else if tick < 0x400_0000 {
        4
    } else if tick < 0x800_0000 {
        8
    } else if tick < 0x1000_0000 {
        16
    } else if tick < 0x2000_0000 {
        32
    } else if tick < 0x4000_0000 {
        64
    } else if tick < 0x8000_0000 {
        128
    } else {
        256
    };
    let below: u32 = tick / unit;
    let rest: u32 = tick % unit;
    proof {
        lemma_single_near(tick);
    }
    if 2 * rest < unit || (2 * rest == unit && below % 2 == 0) {
        below as i64 * unit as i64
    } else {
        (below as i64 + 1) * unit as i64
    }
}

/// Rounding moves a tick by at most half a step, and never past the axis.
pub proof fn lemma_single_near(tick: u32)
    ensures
        2 * (single(tick) - tick) <= single_unit(tick),
        2 * (tick - single(tick)) <= single_unit(tick),
        0 <= single(tick) <= 0x1_0000_0000,
        (tick / single_unit(tick)) * single_unit(tick) + tick % single_unit(tick) == tick,
{
}

/// Ticks up to 2^24 are exact in single precision.
pub proof fn lemma_single_exact(tick: u32)
    requires
        tick <= 0x100_0000,
    ensures
        single(tick) == tick,
{
    if tick < 0x100_0000 {
        lemma_single_near(tick);
    } else {
        assert(tick / 2 == 0x80_0000);
        assert(tick % 2 == 0);
    }
}

impl TickPoint {
    /// Whether `tick` lies at the place or before it.
    pub open spec fn covers(self, tick: int) -> bool {
        match self {
            TickPoint::Undefined => false,
            TickPoint::At { whole, .. } => tick <= whole,
        }
    }

    /// Whether `tick` lies behind the place.
    pub open spec fn precedes(self, tick: int) -> bool {
        match self {
            TickPoint::Undefined => false,
            TickPoint::At { whole, .. } => whole < tick,
        }
    }

    /// Whether `tick` lies at the place or behind it.
    pub open spec fn reached_by(self, tick: int) -> bool {
        match self {
            TickPoint::Undefined => false,
            TickPoint::At { whole, past } => whole < tick || (whole == tick && !past),
        }
    }

    /// Whether `tick` lies before the place.
    pub open spec fn follows(self, tick: int) -> bool {
        match self {
            TickPoint::Undefined => false,
            TickPoint::At { whole, past } => tick < whole || (whole == tick && past),
        }
    }

    /// The whole tick at the place or before it, held inside the range of ticks.
    pub open spec fn clamped(self) -> u32 {
        match self {
            TickPoint::Undefined => 0,
            TickPoint::At { whole, .. } => if whole < 0 {
                0
            } else if whole > u32::MAX {
                u32::MAX
            } else {
                whole as u32
            },
        }
    }

    /// Whether `tick` lies at the place or before it.
    pub fn is_at_or_after(self, tick: i64) -> (r: bool)
        ensures
            r == self.covers(tick as int),
    {
        match self {
            TickPoint::Undefined => false,
            TickPoint::At { whole, .. } => tick <= whole,
        }
    }

    /// Whether `tick` lies behind the place.
    pub fn is_before(self, tick: i64) -> (r: bool)
        ensures
            r == self.precedes(tick as int),
    {
        match self {
            TickPoint::Undefined => false,
            TickPoint::At { whole, .. } => whole < tick,
        }
    }

    /// Whether `tick` lies at the place or behind it.
    pub fn is_at_or_before(self, tick: i64) -> (r: bool)
        ensures
            r == self.reached_by(tick as int),
    {
        match self {
            TickPoint::Undefined => false,
            TickPoint::At { whole, past } => whole < tick || (whole == tick && !past),
        }
    }

    /// Whether `tick` lies before the place.
    pub fn is_after(self, tick: i64) -> (r: bool)
        ensures
            r == self.follows(tick as int),
    {
        match self {
            TickPoint::Undefined => false,
            TickPoint::At { whole, past } => tick < whole || (whole == tick && past),
        }
    }

    /// The whole tick at the place or before it, held inside the range of ticks.
    pub fn clamp(self) -> (r: u32)
        ensures
            r == self.clamped(),
    {
        match self {
            TickPoint::Undefined => 0,
            TickPoint::At { whole, .. } => if whole < 0 {
                0
            } else if whole > 0xFFFF_FFFF {
                u32::MAX
            } else {
                whole as u32
            },
        }
    }
}

} // verus!
