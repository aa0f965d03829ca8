//! The events of a track.
//!
//! The event types are generic in how they hold byte strings: borrowed from the
//! file, owned, or, in specifications, as sequences.

use vstd::prelude::*;

use crate::bytes::copied;
use crate::primitive::{u24, u28, u4, u7, PitchBend, SmpteTime};

verus! {

/// A message on one of the sixteen channels.
#[derive(Clone, Copy, Debug, PartialEq, Eq, Hash, Structural)]
pub enum MidiMessage {
    /// A key is let go.
    NoteOff { key: u8, vel: u7 },
    /// A key is struck; velocity 0 lets it go.
    NoteOn { key: u8, vel: u7 },
    /// Pressure on one key.
    Aftertouch { key: u7, vel: u7 },
    /// A controller changes.
    Controller { controller: u7, value: u7 },
    /// Another program is chosen.
    ProgramChange { program: u7 },
    /// Pressure on the whole channel.
    ChannelAftertouch { vel: u7 },
    /// The pitch bend changes.
    PitchBend { bend: PitchBend },
}

/// A meta event.
#[derive(Debug, PartialEq, Eq, Hash)]
pub enum MetaMessage<B> {
    TrackNumber(Option<u16>),
    Text(B),
    Copyright(B),
    TrackName(B),
    InstrumentName(B),
    Lyric(B),
    Marker(B),
    CuePoint(B),
    ProgramName(B),
    DeviceName(B),
    MidiChannel(u4),
    MidiPort(u7),
    EndOfTrack,
    /// Microseconds per quarter note.
    Tempo(u24),
    SmpteOffset(SmpteTime),
    TimeSignature(u8, u8, u8, u8),
    KeySignature(i8, bool),
    SequencerSpecific(B),
    Unknown(u8, B),
}

/// What an event of a track does.
#[derive(Debug, PartialEq, Eq, Hash)]
pub enum TrackEventKind<B> {
    Midi { channel: u4, message: MidiMessage },
    SysEx(B),
    Escape(B),
    Meta(MetaMessage<B>),
}

/// An event of a track, with the ticks since the event before it.
#[derive(Debug, PartialEq, Eq, Hash)]
pub struct TrackEvent<B> {
    pub delta: u28,
    pub kind: TrackEventKind<B>,
}

impl<B: View<V = Seq<u8>>> View for MetaMessage<B> {
    type V = MetaMessage<Seq<u8>>;

    open spec fn view(&self) -> MetaMessage<Seq<u8>> {
        match *self {
            MetaMessage::TrackNumber(n) => MetaMessage::TrackNumber(n),
            MetaMessage::Text(b) => MetaMessage::Text(b@),
            MetaMessage::Copyright(b) => MetaMessage::Copyright(b@),
            MetaMessage::TrackName(b) => MetaMessage::TrackName(b@),
            MetaMessage::InstrumentName(b) => MetaMessage::InstrumentName(b@),
            MetaMessage::Lyric(b) => MetaMessage::Lyric(b@),
            MetaMessage::Marker(b) => MetaMessage::Marker(b@),
            MetaMessage::CuePoint(b) => MetaMessage::CuePoint(b@),
            MetaMessage::ProgramName(b) => MetaMessage::ProgramName(b@),
            MetaMessage::DeviceName(b) => MetaMessage::DeviceName(b@),
            MetaMessage::MidiChannel(c) => MetaMessage::MidiChannel(c),
            MetaMessage::MidiPort(p) => MetaMessage::MidiPort(p),
            MetaMessage::EndOfTrack => MetaMessage::EndOfTrack,
            MetaMessage::Tempo(t) => MetaMessage::Tempo(t),
            MetaMessage::SmpteOffset(t) => MetaMessage::SmpteOffset(t),
            MetaMessage::TimeSignature(a, b, c, d) => MetaMessage::TimeSignature(a, b, c, d),
            MetaMessage::KeySignature(k, minor) => MetaMessage::KeySignature(k, minor),
            MetaMessage::SequencerSpecific(b) => MetaMessage::SequencerSpecific(b@),
            MetaMessage::Unknown(t, b) => MetaMessage::Unknown(t, b@),
        }
    }
}

impl<B: View<V = Seq<u8>>> View for TrackEventKind<B> {
    type V = TrackEventKind<Seq<u8>>;

    open spec fn view(&self) -> TrackEventKind<Seq<u8>> {
        match *self {
            TrackEventKind::Midi { channel, message } => TrackEventKind::Midi { channel, message },
            TrackEventKind::SysEx(b) => TrackEventKind::SysEx(b@),
            TrackEventKind::Escape(b) => TrackEventKind::Escape(b@),
            TrackEventKind::Meta(m) => TrackEventKind::Meta(m@),
        }
    }
}

impl<B: View<V = Seq<u8>>> View for TrackEvent<B> {
    type V = TrackEvent<Seq<u8>>;

    open spec fn view(&self) -> TrackEvent<Seq<u8>> {
        TrackEvent { delta: self.delta, kind: self.kind@ }
    }
}

impl<'a> MetaMessage<&'a [u8]> {
    /// The same message with its bytes copied.
    pub fn to_static(&self) -> (r: MetaMessage<Vec<u8>>)
        ensures
            r@ == self@,
    {
        match *self {
            MetaMessage::TrackNumber(n) => MetaMessage::TrackNumber(n),
            MetaMessage::Text(b) => MetaMessage::Text(copied(b)),
            MetaMessage::Copyright(b) => MetaMessage::Copyright(copied(b)),
            MetaMessage::TrackName(b) => MetaMessage::TrackName(copied(b)),
            MetaMessage::InstrumentName(b) => MetaMessage::InstrumentName(copied(b)),
            MetaMessage::Lyric(b) => MetaMessage::Lyric(copied(b)),
            MetaMessage::Marker(b) => MetaMessage::Marker(copied(b)),
            MetaMessage::CuePoint(b) => MetaMessage::CuePoint(copied(b)),
            MetaMessage::ProgramName(b) => MetaMessage::ProgramName(copied(b)),
            MetaMessage::DeviceName(b) => MetaMessage::DeviceName(copied(b)),
            MetaMessage::MidiChannel(c) => MetaMessage::MidiChannel(c),
            MetaMessage::MidiPort(p) => MetaMessage::MidiPort(p),
            MetaMessage::EndOfTrack => MetaMessage::EndOfTrack,
            MetaMessage::Tempo(t) => MetaMessage::Tempo(t),
            MetaMessage::SmpteOffset(t) => MetaMessage::SmpteOffset(t),
            MetaMessage::TimeSignature(a, b, c, d) => MetaMessage::TimeSignature(a, b, c, d),
            MetaMessage::KeySignature(k, minor) => MetaMessage::KeySignature(k, minor),
            MetaMessage::SequencerSpecific(b) => MetaMessage::SequencerSpecific(copied(b)),
            MetaMessage::Unknown(t, b) => MetaMessage::Unknown(t, copied(b)),
        }
    }
}

impl<'a> TrackEvent<&'a [u8]> {
    /// The same event with its bytes copied.
    pub fn to_static(&self) -> (r: TrackEvent<Vec<u8>>)
        ensures
            r@ == self@,
    {
        let kind = match &self.kind {
            TrackEventKind::Midi { channel, message } => TrackEventKind::Midi {
                channel: *channel,
                message: *message,
            },
            TrackEventKind::SysEx(b) => TrackEventKind::SysEx(copied(b)),
            TrackEventKind::Escape(b) => TrackEventKind::Escape(copied(b)),
            TrackEventKind::Meta(m) => TrackEventKind::Meta(m.to_static()),
        };
        TrackEvent { delta: self.delta, kind }
    }
}

} // verus!
