//! The small value types that MIDI files are made of.

use vstd::prelude::*;

verus! {

/// A 4-bit unsigned integer.
#[allow(non_camel_case_types)]
#[derive(Clone, Copy, Debug, PartialEq, Eq, Hash, Structural)]
pub struct u4 {
    raw: u8,
}

impl u4 {
    #[verifier::type_invariant]
    closed spec fn in_range(self) -> bool {
        self.raw < 0x10
    }

    /// The number that the integer stands for.
    pub closed spec fn value(self) -> u8 {
        self.raw
    }

    /// The integer made of the low bits of `raw`.
    pub closed spec fn low_bits(raw: u8) -> Self {
        u4 { raw: raw % 0x10 }
    }

    pub broadcast proof fn lemma_low_bits(raw: u8)
        ensures
            (#[trigger] u4::low_bits(raw)).value() == raw % 0x10,
    {
    }

    /// Keeps the low bits of `raw` and drops the rest.
    #[verifier::when_used_as_spec(low_bits)]
    pub fn new(raw: u8) -> (r: Self)
        ensures
            r == u4::low_bits(raw),
            r.value() == raw % 0x10,
    {
        u4 { raw: raw % 0x10 }
    }

    /// The number as a plain integer.
    #[verifier::when_used_as_spec(value)]
    pub fn as_int(self) -> (r: u8)
        ensures
            r == self.value(),
            r < 0x10,
    {
        proof {
            use_type_invariant(&self);
        }
        self.raw
    }
}

/// A 7-bit unsigned integer.
#[allow(non_camel_case_types)]
#[derive(Clone, Copy, Debug, PartialEq, Eq, Hash, Structural)]
pub struct u7 {
    raw: u8,
}

impl u7 {
    #[verifier::type_invariant]
    closed spec fn in_range(self) -> bool {
        self.raw < 0x80
    }

    /// The number that the integer stands for.
    pub closed spec fn value(self) -> u8 {
        self.raw
    }

    /// The integer made of the low bits of `raw`.
    pub closed spec fn low_bits(raw: u8) -> Self {
        u7 { raw: raw % 0x80 }
    }

    pub broadcast proof fn lemma_low_bits(raw: u8)
        ensures
            (#[trigger] u7::low_bits(raw)).value() == raw % 0x80,
    {
    }

    /// Keeps the low bits of `raw` and drops the rest.
    #[verifier::when_used_as_spec(low_bits)]
    pub fn new(raw: u8) -> (r: Self)
        ensures
            r == u7::low_bits(raw),
            r.value() == raw % 0x80,
    {
        u7 { raw: raw % 0x80 }
    }

    /// The number as a plain integer.
    #[verifier::when_used_as_spec(value)]
    pub fn as_int(self) -> (r: u8)
        ensures
            r == self.value(),
            r < 0x80,
    {
        proof {
            use_type_invariant(&self);
        }
        self.raw
    }
}

/// A 14-bit unsigned integer.
#[allow(non_camel_case_types)]
#[derive(Clone, Copy, Debug, PartialEq, Eq, Hash, Structural)]
pub struct u14 {
    raw: u16,
}

impl u14 {
    #[verifier::type_invariant]
    closed spec fn in_range(self) -> bool {
        self.raw < 0x4000
    }

    /// The number that the integer stands for.
    pub closed spec fn value(self) -> u16 {
        self.raw
    }

    /// The integer made of the low bits of `raw`.
    pub closed spec fn low_bits(raw: u16) -> Self {
        u14 { raw: raw % 0x4000 }
    }

    pub broadcast proof fn lemma_low_bits(raw: u16)
        ensures
            (#[trigger] u14::low_bits(raw)).value() == raw % 0x4000,
    {
    }

    /// Keeps the low bits of `raw` and drops the rest.
    #[verifier::when_used_as_spec(low_bits)]
    pub fn new(raw: u16) -> (r: Self)
        ensures
            r == u14::low_bits(raw),
            r.value() == raw % 0x4000,
    {
        u14 { raw: raw % 0x4000 }
    }

    /// The number as a plain integer.
    #[verifier::when_used_as_spec(value)]
    pub fn as_int(self) -> (r: u16)
        ensures
            r == self.value(),
            r < 0x4000,
    {
        proof {
            use_type_invariant(&self);
        }
        self.raw
    }
}

/// A 15-bit unsigned integer.
#[allow(non_camel_case_types)]
#[derive(Clone, Copy, Debug, PartialEq, Eq, Hash, Structural)]
pub struct u15 {
    raw: u16,
}

impl u15 {
    #[verifier::type_invariant]
    closed spec fn in_range(self) -> bool {
        self.raw < 0x8000
    }

    /// The number that the integer stands for.
    pub closed spec fn value(self) -> u16 {
        self.raw
    }

    /// The integer made of the low bits of `raw`.
    pub closed spec fn low_bits(raw: u16) -> Self {
        u15 { raw: raw % 0x8000 }
    }

    pub broadcast proof fn lemma_low_bits(raw: u16)
        ensures
            (#[trigger] u15::low_bits(raw)).value() == raw % 0x8000,
    {
    }

    /// Keeps the low bits of `raw` and drops the rest.
    #[verifier::when_used_as_spec(low_bits)]
    pub fn new(raw: u16) -> (r: Self)
        ensures
            r == u15::low_bits(raw),
            r.value() == raw % 0x8000,
    {
        u15 { raw: raw % 0x8000 }
    }

    /// The number as a plain integer.
    #[verifier::when_used_as_spec(value)]
    pub fn as_int(self) -> (r: u16)
        ensures
            r == self.value(),
            r < 0x8000,
    {
        proof {
            use_type_invariant(&self);
        }
        self.raw
    }
}

/// A 24-bit unsigned integer.
#[allow(non_camel_case_types)]
#[derive(Clone, Copy, Debug, PartialEq, Eq, Hash, Structural)]
pub struct u24 {
    raw: u32,
}

impl u24 {
    #[verifier::type_invariant]
    closed spec fn in_range(self) -> bool {
        self.raw < 0x100_0000
    }

    /// The number that the integer stands for.
    pub closed spec fn value(self) -> u32 {
        self.raw
    }

    /// The integer made of the low bits of `raw`.
    pub closed spec fn low_bits(raw: u32) -> Self {
        u24 { raw: raw % 0x100_0000 }
    }

    pub broadcast proof fn lemma_low_bits(raw: u32)
        ensures
            (#[trigger] u24::low_bits(raw)).value() == raw % 0x100_0000,
    {
    }

    /// Keeps the low bits of `raw` and drops the rest.
    #[verifier::when_used_as_spec(low_bits)]
    pub fn new(raw: u32) -> (r: Self)
        ensures
            r == u24::low_bits(raw),
            r.value() == raw % 0x100_0000,
    {
        u24 { raw: raw % 0x100_0000 }
    }

    /// The number as a plain integer.
    #[verifier::when_used_as_spec(value)]
    pub fn as_int(self) -> (r: u32)
        ensures
            r == self.value(),
            r < 0x100_0000,
    {
        proof {
            use_type_invariant(&self);
        }
        self.raw
    }
}

/// A 28-bit unsigned integer.
#[allow(non_camel_case_types)]
#[derive(Clone, Copy, Debug, PartialEq, Eq, Hash, Structural)]
pub struct u28 {
    raw: u32,
}

impl u28 {
    #[verifier::type_invariant]
    closed spec fn in_range(self) -> bool {
        self.raw < 0x1000_0000
    }

    /// The number that the integer stands for.
    pub closed spec fn value(self) -> u32 {
        self.raw
    }

    /// The integer made of the low bits of `raw`.
    pub closed spec fn low_bits(raw: u32) -> Self {
        u28 { raw: raw % 0x1000_0000 }
    }

    pub broadcast proof fn lemma_low_bits(raw: u32)
        ensures
            (#[trigger] u28::low_bits(raw)).value() == raw % 0x1000_0000,
    {
    }

    /// Keeps the low bits of `raw` and drops the rest.
    #[verifier::when_used_as_spec(low_bits)]
    pub fn new(raw: u32) -> (r: Self)
        ensures
            r == u28::low_bits(raw),
            r.value() == raw % 0x1000_0000,
    {
        u28 { raw: raw % 0x1000_0000 }
    }

    /// The number as a plain integer.
    #[verifier::when_used_as_spec(value)]
    pub fn as_int(self) -> (r: u32)
        ensures
            r == self.value(),
            r < 0x1000_0000,
    {
        proof {
            use_type_invariant(&self);
        }
        self.raw
    }
}

/// Brings the facts on `new` of every restricted integer into scope.
pub broadcast group group_low_bits {
    u4::lemma_low_bits,
    u7::lemma_low_bits,
    u14::lemma_low_bits,
    u15::lemma_low_bits,
    u24::lemma_low_bits,
    u28::lemma_low_bits,
}

/// How the tracks of a file relate to each other.
#[derive(Clone, Copy, Debug, PartialEq, Eq, Hash, Structural)]
pub enum Format {
    /// The file holds a single track.
    SingleTrack,
    /// The tracks are played at the same time.
    Parallel,
    /// The tracks are played one after another.
    Sequential,
}

impl Format {
    /// The format with number `raw` in a header.
    pub open spec fn of_number(raw: u16) -> Option<Format> {
        if raw == 0 {
            Some(Format::SingleTrack)
        } else if raw == 1 {
            Some(Format::Parallel)
        } else if raw == 2 {
            Some(Format::Sequential)
        } else {
            None
        }
    }

    /// The format with number `raw` in a header, where there is one.
    pub fn from_number(raw: u16) -> (r: Option<Format>)
        ensures
            r == Format::of_number(raw),
    {
        match raw {
            0 => Some(Format::SingleTrack),
            1 => Some(Format::Parallel),
            2 => Some(Format::Sequential),
            _ => None,
        }
    }
}

/// The frame rates that SMPTE timing knows.
#[derive(Clone, Copy, Debug, PartialEq, Eq, Hash, Structural)]
pub enum Fps {
    /// 24 frames per second.
    Fps24,
    /// 25 frames per second.
    Fps25,
    /// 29.97 frames per second, counted as 29.
    Fps29,
    /// 30 frames per second.
    Fps30,
}

impl Fps {
    /// The rate whose whole number of frames per second is `raw`.
    pub open spec fn of_number(raw: u8) -> Option<Fps> {
        if raw == 24 {
            Some(Fps::Fps24)
        } else if raw == 25 {
            Some(Fps::Fps25)
        } else if raw == 29 {
            Some(Fps::Fps29)
        } else if raw == 30 {
            Some(Fps::Fps30)
        } else {
            None
        }
    }

    /// The whole number of frames in a second.
    pub open spec fn number(self) -> u8 {
        match self {
            Fps::Fps24 => 24,
            Fps::Fps25 => 25,
            Fps::Fps29 => 29,
            Fps::Fps30 => 30,
        }
    }

    /// The rate with `raw` whole frames per second, where there is one.
    pub fn from_int(raw: u8) -> (r: Option<Fps>)
        ensures
            r == Fps::of_number(raw),
    {
        match raw {
            24 => Some(Fps::Fps24),
            25 => Some(Fps::Fps25),
            29 => Some(Fps::Fps29),
            30 => Some(Fps::Fps30),
            _ => None,
        }
    }

    /// The whole number of frames in a second.
    pub fn as_int(self) -> (r: u8)
        ensures
            r == self.number(),
    {
        match self {
            Fps::Fps24 => 24,
            Fps::Fps25 => 25,
            Fps::Fps29 => 29,
            Fps::Fps30 => 30,
        }
    }
}

/// What the ticks of a file measure.
#[derive(Clone, Copy, Debug, PartialEq, Eq, Hash, Structural)]
pub enum Timing {
    /// Ticks per quarter note.
    Metrical(u15),
    /// Frames per second, and ticks per frame.
    Timecode(Fps, u8),
}

impl Timing {
    /// The timing that the division word of a header stands for.
    ///
    /// With the top bit clear the word counts ticks per quarter note. With the
    /// top bit set its high byte is the negated frame rate.
    pub open spec fn of_division(division: u16) -> Option<Timing> {
        if division < 0x8000 {
            Some(Timing::Metrical(u15::new(division)))
        } else {
            match Fps::of_number((0x100 - division / 0x100) as u8) {
                Some(fps) => Some(Timing::Timecode(fps, (division % 0x100) as u8)),
                None => None,
            }
        }
    }

    /// Reads the division word of a header; `None` where the frame rate is unknown.
    pub fn from_division(division: u16) -> (r: Option<Timing>)
        ensures
            r == Timing::of_division(division),
    {
        if division < 0x8000 {
            Some(Timing::Metrical(u15::new(division)))
        } else {
            let rate: u8 = (0x100 - division / 0x100) as u8;
            match Fps::from_int(rate) {
                Some(fps) => Some(Timing::Timecode(fps, (division % 0x100) as u8)),
                None => None,
            }
        }
    }
}

/// A point in time in hours, minutes, seconds, frames and hundredths of a frame.
#[derive(Clone, Copy, Debug, PartialEq, Eq, Hash, Structural)]
pub struct SmpteTime {
    pub hour: u8,
    pub minute: u8,
    pub second: u8,
    pub frame: u8,
    pub subframe: u8,
    pub fps: Fps,
}

impl SmpteTime {
    /// Whether every part of the time stays below its limit.
    pub open spec fn valid(self) -> bool {
        &&& self.hour < 24
        &&& self.minute < 60
        &&& self.second < 60
        &&& self.frame < self.fps.number()
        &&& self.subframe < 100
    }

    /// A time from its parts, or `None` where a part is out of its range.
    pub fn new(
        hour: u8,
        minute: u8,
        second: u8,
        frame: u8,
        subframe: u8,
        fps: Fps,
    ) -> (r: Option<SmpteTime>)
        ensures
            ({
                let time = SmpteTime { hour, minute, second, frame, subframe, fps };
                r == if time.valid() {
                    Some(time)
                } else {
                    None
                }
            }),
    {
        if hour < 24 && minute < 60 && second < 60 && frame < fps.as_int() && subframe < 100 {
            Some(SmpteTime { hour, minute, second, frame, subframe, fps })
        } else {
            None
        }
    }
}

/// A pitch bend as the 14-bit number that the file holds.
#[derive(Clone, Copy, Debug, PartialEq, Eq, Hash, Structural)]
pub struct PitchBend(pub u14);

} // verus!
