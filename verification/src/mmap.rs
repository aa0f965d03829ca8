//! Parsing a file in place, from bytes that are in memory or mapped from disk.

use vstd::prelude::*;

use crate::bytes::{be16, be24, be32, named, place_of};
use crate::bytes::{find_name, is_named, read_be16, read_be24, read_be32, MTHD, MTRK, RIFF};
use crate::error::Error;
use crate::event::{MetaMessage, MidiMessage, TrackEvent, TrackEventKind};
use crate::primitive::{u14, u24, u28, u4, u7, Format, Fps, PitchBend, SmpteTime, Timing};
use crate::smf::{Header, Smf};
use crate::vlq::{read_varlen_fast, vlq_complete, vlq_len, vlq_value};

verus! {

/// The message of a channel status with two data bytes.
pub open spec fn two_byte_message(kind: u8, d1: u8, d2: u8) -> MidiMessage {
    if kind == 0x8 {
        MidiMessage::NoteOff { key: d1, vel: u7::new(d2) }
    } else if kind == 0x9 {
        MidiMessage::NoteOn { key: d1, vel: u7::new(d2) }
    } else if kind == 0xA {
        MidiMessage::Aftertouch { key: u7::new(d1), vel: u7::new(d2) }
    } else if kind == 0xB {
        MidiMessage::Controller { controller: u7::new(d1), value: u7::new(d2) }
    } else {
        MidiMessage::PitchBend { bend: PitchBend(u14::new((d2 % 128 * 128 + d1 % 128) as u16)) }
    }
}

/// The message of a channel status whose data starts `d`, and how many bytes it takes.
pub open spec fn channel_message(status: u8, d: Seq<u8>) -> Result<
    (TrackEventKind<Seq<u8>>, int),
    Error,
> {
    let channel = u4::new(status % 16);
    let kind = status / 16;
    if kind == 0x8 || kind == 0x9 || kind == 0xA || kind == 0xB || kind == 0xE {
        if d.len() < 2 {
            Err(Error::ChannelMessageCut)
        } else {
            let message = two_byte_message(kind, d[0], d[1]);
            Ok((TrackEventKind::Midi { channel, message }, 2))
        }
    } else if kind == 0xC || kind == 0xD {
        if d.len() < 1 {
            Err(Error::ChannelMessageCut)
        } else {
            let message = if kind == 0xC {
                MidiMessage::ProgramChange { program: u7::new(d[0]) }
            } else {
                MidiMessage::ChannelAftertouch { vel: u7::new(d[0]) }
            };
            Ok((TrackEventKind::Midi { channel, message }, 1))
        }
    } else {
        Err(Error::ChannelMessageType)
    }
}

/// Data behind its length at the start of `d`, and how many bytes both take;
/// `bad_length` and `cut` are the errors where one of them is not there in full.
pub open spec fn prefixed(d: Seq<u8>, bad_length: Error, cut: Error) -> Result<
    (Seq<u8>, int),
    Error,
> {
    let n = vlq_len(d, 0);
    let end = n + vlq_value(d, 0);
    if !vlq_complete(d, 0) {
        Err(bad_length)
    } else if d.len() < end {
        Err(cut)
    } else {
        Ok((d.subrange(n, end), end))
    }
}

/// The frame rate that two bits stand for.
pub open spec fn offset_fps(bits: u8) -> Fps {
    if bits == 0 {
        Fps::Fps24
    } else if bits == 1 {
        Fps::Fps25
    } else if bits == 2 {
        Fps::Fps29
    } else {
        Fps::Fps30
    }
}

/// The time that the first five bytes of a SMPTE offset give, or the start where
/// they give none.
pub open spec fn smpte_offset(d: Seq<u8>) -> SmpteTime {
    let time = SmpteTime {
        hour: d[0] % 32,
        minute: d[1],
        second: d[2],
        frame: d[3],
        subframe: d[4],
        fps: offset_fps(d[0] / 32 % 4),
    };
    if time.valid() {
        time
    } else {
        SmpteTime { hour: 0, minute: 0, second: 0, frame: 0, subframe: 0, fps: Fps::Fps24 }
    }
}

/// The meta message of a type with data `d`. A known type with too little data is
/// an unknown message.
pub open spec fn meta_message(meta_type: u8, d: Seq<u8>) -> MetaMessage<Seq<u8>> {
    if meta_type == 0x00 {
        MetaMessage::TrackNumber(
            if d.len() >= 2 {
                Some(be16(d, 0))
            } else {
                None
            },
        )
    } else if meta_type == 0x01 {
        MetaMessage::Text(d)
    } else if meta_type == 0x02 {
        MetaMessage::Copyright(d)
    } else if meta_type == 0x03 {
        MetaMessage::TrackName(d)
    } else if meta_type == 0x04 {
        MetaMessage::InstrumentName(d)
    } else if meta_type == 0x05 {
        MetaMessage::Lyric(d)
    } else if meta_type == 0x06 {
        MetaMessage::Marker(d)
    } else if meta_type == 0x07 {
        MetaMessage::CuePoint(d)
    } else if meta_type == 0x08 {
        MetaMessage::ProgramName(d)
    } else if meta_type == 0x09 {
        MetaMessage::DeviceName(d)
    } else if meta_type == 0x20 && d.len() >= 1 {
        MetaMessage::MidiChannel(u4::new(d[0]))
    } else if meta_type == 0x21 && d.len() >= 1 {
        MetaMessage::MidiPort(u7::new(d[0]))
    } else if meta_type == 0x2F {
        MetaMessage::EndOfTrack
    } else if meta_type == 0x51 && d.len() >= 3 {
        MetaMessage::Tempo(u24::new(be24(d, 0)))
    } else if meta_type == 0x54 && d.len() >= 5 {
        MetaMessage::SmpteOffset(smpte_offset(d))
    } else if meta_type == 0x58 && d.len() >= 4 {
        MetaMessage::TimeSignature(d[0], d[1], d[2], d[3])
    } else if meta_type == 0x59 && d.len() >= 2 {
        MetaMessage::KeySignature(d[0] as i8, d[1] != 0)
    } else if meta_type == 0x7F {
        MetaMessage::SequencerSpecific(d)
    } else {
        MetaMessage::Unknown(meta_type, d)
    }
}

/// The event at the start of `d`, behind its delta time, and how many bytes it
/// takes; `running` is the channel status that it may leave out.
#[verifier::opaque]
pub open spec fn event_kind(d: Seq<u8>, running: Option<u8>) -> Result<
    (TrackEventKind<Seq<u8>>, int),
    Error,
> {
    if d.len() == 0 {
        Err(Error::EventMissing)
    } else if d[0] < 0x80 {
        match running {
            Some(status) => channel_message(status, d),
            None => Err(Error::NoRunningStatus),
        }
    } else if d[0] < 0xF0 {
        match channel_message(d[0], d.skip(1)) {
            Ok((kind, n)) => Ok((kind, n + 1)),
            Err(e) => Err(e),
        }
    } else if d[0] == 0xFF {
        if d.len() < 2 {
            Err(Error::MetaCut)
        } else {
            match prefixed(d.skip(2), Error::MetaLength, Error::MetaDataCut) {
                Ok((data, n)) => Ok((TrackEventKind::Meta(meta_message(d[1], data)), n + 2)),
                Err(e) => Err(e),
            }
        }
    } else if d[0] == 0xF0 {
        match prefixed(d.skip(1), Error::SysExLength, Error::SysExDataCut) {
            Ok((data, n)) => Ok((TrackEventKind::SysEx(data), n + 1)),
            Err(e) => Err(e),
        }
    } else if d[0] == 0xF7 {
        match prefixed(d.skip(1), Error::EscapeLength, Error::EscapeDataCut) {
            Ok((data, n)) => Ok((TrackEventKind::Escape(data), n + 1)),
            Err(e) => Err(e),
        }
    } else {
        Err(Error::StatusByte)
    }
}

/// The channel status that the event behind the one at the start of `d` may leave out.
pub open spec fn next_running(d: Seq<u8>, running: Option<u8>) -> Option<u8> {
    if d.len() == 0 || d[0] < 0x80 {
        running
    } else if d[0] < 0xF0 {
        Some(d[0])
    } else if d[0] == 0xFF || d[0] == 0xF0 || d[0] == 0xF7 {
        None
    } else {
        running
    }
}

fn parse_channel_message<'a>(status: u8, data: &mut &'a [u8]) -> (r: Result<
    TrackEventKind<&'a [u8]>,
    Error,
>)
    ensures
        match r {
            Ok(kind) => channel_message(status, old(data)@) matches Ok((k, n)) && k == kind@
                && final(data)@ == old(data)@.skip(n) && 0 <= n <= old(data)@.len(),
            Err(e) => channel_message(status, old(data)@) == Err::<
                (TrackEventKind<Seq<u8>>, int),
                Error,
            >(e) && final(data)@ == old(data)@,
        },
{
    let d: &'a [u8] = *data;
    let channel = u4::new(status % 16);
    let kind: u8 = status / 16;
    match kind {
        0x8 | 0x9 | 0xA | 0xB | 0xE => {
            if d.len() < 2 {
                return Err(Error::ChannelMessageCut);
            }
            let d1: u8 = d[0];
            let d2: u8 = d[1];
            *data = &d[2..d.len()];
            let message = match kind {
                0x8 => MidiMessage::NoteOff { key: d1, vel: u7::new(d2) },
                0x9 => MidiMessage::NoteOn { key: d1, vel: u7::new(d2) },
                0xA => MidiMessage::Aftertouch { key: u7::new(d1), vel: u7::new(d2) },
                0xB => MidiMessage::Controller { controller: u7::new(d1), value: u7::new(d2) },
                _ => MidiMessage::PitchBend {
                    bend: PitchBend(u14::new((d2 % 128) as u16 * 128 + (d1 % 128) as u16)),
                },
            };
            Ok(TrackEventKind::Midi { channel, message })
        },
        0xC | 0xD => {
            if d.len() < 1 {
                return Err(Error::ChannelMessageCut);
            }
            let d1: u8 = d[0];
            *data = &d[1..d.len()];
            let message = if kind == 0xC {
                MidiMessage::ProgramChange { program: u7::new(d1) }
            } else {
                MidiMessage::ChannelAftertouch { vel: u7::new(d1) }
            };
            Ok(TrackEventKind::Midi { channel, message })
        },
        _ => Err(Error::ChannelMessageType),
    }
}

fn parse_prefixed<'a>(data: &mut &'a [u8], bad_length: Error, cut: Error) -> (r: Result<
    &'a [u8],
    Error,
>)
    ensures
        match r {
            Ok(taken) => prefixed(old(data)@, bad_length, cut) matches Ok((t, n)) && t == taken@
                && final(data)@ == old(data)@.skip(n) && 0 <= n <= old(data)@.len(),
            Err(e) => prefixed(old(data)@, bad_length, cut) == Err::<(Seq<u8>, int), Error>(e),
        },
{
    let d: &'a [u8] = *data;
    match read_varlen_fast(d) {
        None => Err(bad_length),
        Some((length, n)) => {
            if ((d.len() - n) as u64) < length as u64 {
                return Err(cut);
            }
            let end: usize = n + length as usize;
            *data = &d[end..d.len()];
            Ok(&d[n..end])
        },
    }
}

/// The time that the first five bytes of a SMPTE offset give.
fn parse_smpte_offset(data: &[u8]) -> (r: SmpteTime)
    requires
        data@.len() >= 5,
    ensures
        r == smpte_offset(data@),
{
    let bits: u8 = data[0] / 32 % 4;
    let fps = match bits {
        0 => Fps::Fps24,
        1 => Fps::Fps25,
        2 => Fps::Fps29,
        _ => Fps::Fps30,
    };
    match SmpteTime::new(data[0] % 32, data[1], data[2], data[3], data[4], fps) {
        Some(time) => time,
        None => SmpteTime { hour: 0, minute: 0, second: 0, frame: 0, subframe: 0, fps: Fps::Fps24 },
    }
}

fn parse_meta_message<'a>(meta_type: u8, data: &'a [u8]) -> (r: MetaMessage<&'a [u8]>)
    ensures
        r@ == meta_message(meta_type, data@),
{
    let len: usize = data.len();
    match meta_type {
        0x00 => MetaMessage::TrackNumber(
            if len >= 2 {
                Some(read_be16(data, 0))
            } else {
                None
            },
        ),
        0x01 => MetaMessage::Text(data),
        0x02 => MetaMessage::Copyright(data),
        0x03 => MetaMessage::TrackName(data),
        0x04 => MetaMessage::InstrumentName(data),
        0x05 => MetaMessage::Lyric(data),
        0x06 => MetaMessage::Marker(data),
        0x07 => MetaMessage::CuePoint(data),
        0x08 => MetaMessage::ProgramName(data),
        0x09 => MetaMessage::DeviceName(data),
        0x20 if len >= 1 => MetaMessage::MidiChannel(u4::new(data[0])),
        0x21 if len >= 1 => MetaMessage::MidiPort(u7::new(data[0])),
        0x2F => MetaMessage::EndOfTrack,
        0x51 if len >= 3 => MetaMessage::Tempo(u24::new(read_be24(data, 0))),
        0x54 if len >= 5 => MetaMessage::SmpteOffset(parse_smpte_offset(data)),
        0x58 if len >= 4 => MetaMessage::TimeSignature(data[0], data[1], data[2], data[3]),
        0x59 if len >= 2 => MetaMessage::KeySignature(data[0] as i8, data[1] != 0),
        0x7F => MetaMessage::SequencerSpecific(data),
        _ => MetaMessage::Unknown(meta_type, data),
    }
}

fn parse_event_fast<'a>(data: &mut &'a [u8], running_status: &mut Option<u8>) -> (r: Result<
    TrackEventKind<&'a [u8]>,
    Error,
>)
    ensures
        match r {
            Ok(kind) => event_kind(old(data)@, *old(running_status)) matches Ok((k, n)) && k
                == kind@ && final(data)@ == old(data)@.skip(n) && 0 <= n <= old(data)@.len(),
            Err(e) => event_kind(old(data)@, *old(running_status)) == Err::<
                (TrackEventKind<Seq<u8>>, int),
                Error,
            >(e) && (old(data)@.len() == 0 || old(data)@[0] < 0x80 ==> final(data)@
                == old(data)@),
        },
        *final(running_status) == next_running(old(data)@, *old(running_status)),
{
    broadcast use vstd::seq_lib::lemma_seq_skip_of_skip;

    proof {
        reveal(event_kind);
    }
    let d: &'a [u8] = *data;
    let len: usize = d.len();
    if len == 0 {
        return Err(Error::EventMissing);
    }
    let status: u8 = d[0];
    if status < 0x80 {
        return match *running_status {
            Some(running) => parse_channel_message(running, data),
            None => Err(Error::NoRunningStatus),
        };
    }
    *data = &d[1..len];
    let ghost whole = d@;
    assert(data@ =~= whole.skip(1));
    if status < 0xF0 {
        *running_status = Some(status);
        parse_channel_message(status, data)
    } else if status == 0xFF {
        *running_status = None;
        if len < 2 {
            return Err(Error::MetaCut);
        }
        let meta_type: u8 = d[1];
        *data = &d[2..len];
        assert(data@ =~= whole.skip(2));
        match parse_prefixed(data, Error::MetaLength, Error::MetaDataCut) {
            Ok(meta_data) => Ok(TrackEventKind::Meta(parse_meta_message(meta_type, meta_data))),
            Err(e) => Err(e),
        }
    } else if status == 0xF0 || status == 0xF7 {
        *running_status = None;
        if status == 0xF0 {
            match parse_prefixed(data, Error::SysExLength, Error::SysExDataCut) {
                Ok(sysex_data) => Ok(TrackEventKind::SysEx(sysex_data)),
                Err(e) => Err(e),
            }
        } else {
            match parse_prefixed(data, Error::EscapeLength, Error::EscapeDataCut) {
                Ok(escape_data) => Ok(TrackEventKind::Escape(escape_data)),
                Err(e) => Err(e),
            }
        }
    } else {
        Err(Error::StatusByte)
    }
}

/// What a step over track data gives, and what it leaves.
pub struct ItemStep {
    pub item: Result<TrackEvent<Seq<u8>>, Error>,
    pub rest: Seq<u8>,
    pub running: Option<u8>,
}

/// The step over the event at the start of `d`. An error takes all the data.
pub open spec fn item_step(d: Seq<u8>, running: Option<u8>) -> ItemStep {
    let n = vlq_len(d, 0);
    if !vlq_complete(d, 0) {
        ItemStep { item: Err(Error::DeltaCut), rest: seq![], running }
    } else {
        let after = next_running(d.skip(n), running);
        match event_kind(d.skip(n), running) {
            Ok((kind, k)) => ItemStep {
                item: Ok(TrackEvent { delta: u28::new(vlq_value(d, 0)), kind }),
                rest: d.skip(n).skip(k),
                running: after,
            },
            Err(e) => ItemStep { item: Err(e), rest: seq![], running: after },
        }
    }
}

/// The events of track data, and the error where one ends them.
pub open spec fn items(d: Seq<u8>, running: Option<u8>) -> Seq<
    Result<TrackEvent<Seq<u8>>, Error>,
>
    decreases d.len(),
{
    if d.len() == 0 {
        seq![]
    } else {
        let step = item_step(d, running);
        proof {
            lemma_item_step(d, running);
        }
        seq![step.item] + items(step.rest, step.running)
    }
}

/// A step takes at least one byte.
pub proof fn lemma_item_step(d: Seq<u8>, running: Option<u8>)
    requires
        d.len() > 0,
    ensures
        item_step(d, running).rest.len() < d.len(),
{
    reveal(event_kind);
}

/// An item with its data as sequences.
pub open spec fn item_view(item: Result<TrackEvent<&[u8]>, Error>) -> Result<
    TrackEvent<Seq<u8>>,
    Error,
> {
    match item {
        Ok(event) => Ok(event@),
        Err(e) => Err(e),
    }
}

/// Steps over the events of a track, reading them in place.
#[derive(Clone, Debug)]
pub struct MmapEventIter<'a> {
    data: &'a [u8],
    running_status: Option<u8>,
}

impl<'a> MmapEventIter<'a> {
    /// The data that is left.
    pub closed spec fn rest(self) -> Seq<u8> {
        self.data@
    }

    /// The channel status that the next event may leave out.
    pub closed spec fn running(self) -> Option<u8> {
        self.running_status
    }

    /// The items that are still to come.
    pub open spec fn view(&self) -> Seq<Result<TrackEvent<Seq<u8>>, Error>> {
        items(self.rest(), self.running())
    }

    /// At the start of track data.
    pub fn new(data: &'a [u8]) -> (r: MmapEventIter<'a>)
        ensures
            r.rest() == data@,
            r.running() is None,
    {
        MmapEventIter { data, running_status: None }
    }

    /// The data that is left.
    pub fn remaining(&self) -> (r: &'a [u8])
        ensures
            r@ == self.rest(),
    {
        self.data
    }

    /// The next event, or the error that ends the track.
    pub fn next(&mut self) -> (r: Option<Result<TrackEvent<&'a [u8]>, Error>>)
        ensures
            match r {
                None => old(self).rest().len() == 0 && *final(self) == *old(self),
                Some(item) => {
                    let step = item_step(old(self).rest(), old(self).running());
                    &&& old(self).rest().len() > 0
                    &&& item_view(item) == step.item
                    &&& final(self).rest() == step.rest
                    &&& final(self).running() == step.running
                    &&& old(self)@ == seq![item_view(item)] + final(self)@
                    &&& final(self).rest().len() < old(self).rest().len()
                },
            },
    {
        let d: &'a [u8] = self.data;
        let len: usize = d.len();
        if len == 0 {
            return None;
        }
        proof {
            lemma_item_step(d@, self.running_status);
        }
        match read_varlen_fast(d) {
            None => {
                self.data = &d[len..len];
                assert(self.data@ =~= seq![]);
                Some(Err(Error::DeltaCut))
            },
            Some((delta, n)) => {
                let mut data: &'a [u8] = &d[n..len];
                assert(data@ =~= d@.skip(n as int));
                let mut running: Option<u8> = self.running_status;
                let r = parse_event_fast(&mut data, &mut running);
                self.running_status = running;
                match r {
                    Ok(kind) => {
                        self.data = data;
                        Some(Ok(TrackEvent { delta: u28::new(delta), kind }))
                    },
                    Err(e) => {
                        self.data = &d[len..len];
                        assert(self.data@ =~= seq![]);
                        Some(Err(e))
                    },
                }
            },
        }
    }
}

/// The note-on message of an item: the delta time, the key, the velocity and the channel.
pub open spec fn note_on_of(item: Result<TrackEvent<Seq<u8>>, Error>) -> Option<
    (u28, u8, u7, u4),
> {
    match item {
        Ok(event) => match event.kind {
            TrackEventKind::Midi { channel, message: MidiMessage::NoteOn { key, vel } } => Some(
                (event.delta, key, vel, channel),
            ),
            _ => None,
        },
        Err(_) => None,
    }
}

/// The note-on messages of items, in their order.
pub open spec fn note_ons(items: Seq<Result<TrackEvent<Seq<u8>>, Error>>) -> Seq<
    (u28, u8, u7, u4),
>
    decreases items.len(),
{
    if items.len() == 0 {
        seq![]
    } else {
        let rest = note_ons(items.drop_first());
        match note_on_of(items[0]) {
            Some(note) => seq![note] + rest,
            None => rest,
        }
    }
}

/// The events among items, in their order.
pub open spec fn events_of(items: Seq<Result<TrackEvent<Seq<u8>>, Error>>) -> Seq<
    TrackEvent<Seq<u8>>,
>
    decreases items.len(),
{
    if items.len() == 0 {
        seq![]
    } else {
        let rest = events_of(items.drop_first());
        match items[0] {
            Ok(event) => seq![event] + rest,
            Err(_) => rest,
        }
    }
}

/// The ticks that the events among items take.
pub open spec fn ticks_of(items: Seq<Result<TrackEvent<Seq<u8>>, Error>>) -> nat
    decreases items.len(),
{
    if items.len() == 0 {
        0
    } else {
        ticks_of(items.drop_first()) + match items[0] {
            Ok(event) => event.delta.value() as nat,
            Err(_) => 0,
        }
    }
}

/// What a first item adds.
proof fn lemma_first_item(
    item: Result<TrackEvent<Seq<u8>>, Error>,
    rest: Seq<Result<TrackEvent<Seq<u8>>, Error>>,
)
    ensures
        note_ons(seq![item] + rest) == match note_on_of(item) {
            Some(note) => seq![note] + note_ons(rest),
            None => note_ons(rest),
        },
        events_of(seq![item] + rest) == match item {
            Ok(event) => seq![event] + events_of(rest),
            Err(_) => events_of(rest),
        },
        ticks_of(seq![item] + rest) == ticks_of(rest) + match item {
            Ok(event) => event.delta.value() as nat,
            Err(_) => 0,
        },
{
    let all = seq![item] + rest;
    assert(all.drop_first() =~= rest);
    assert(all[0] == item);
}

/// A track in place.
#[derive(Clone, Copy, Debug)]
pub struct MmapTrack<'a> {
    data: &'a [u8],
}

impl<'a> MmapTrack<'a> {
    /// The data of the track.
    pub closed spec fn view(&self) -> Seq<u8> {
        self.data@
    }

    /// The events of the track, and the error where one ends them.
    pub open spec fn items(self) -> Seq<Result<TrackEvent<Seq<u8>>, Error>> {
        items(self@, None)
    }

    fn new(data: &'a [u8]) -> (r: MmapTrack<'a>)
        ensures
            r@ == data@,
    {
        MmapTrack { data }
    }

    /// The data of the track.
    pub fn as_bytes(&self) -> (r: &'a [u8])
        ensures
            r@ == self@,
    {
        self.data
    }

    /// Steps over the events of the track.
    pub fn iter(&self) -> (r: MmapEventIter<'a>)
        ensures
            r.rest() == self@,
            r.running() is None,
            r@ == self.items(),
    {
        MmapEventIter::new(self.data)
    }

    /// The number of events, with the error where one ends them.
    pub fn event_count(&self) -> (r: usize)
        ensures
            r == self.items().len(),
            r <= self@.len(),
    {
        let mut iter = self.iter();
        let mut count: usize = 0;
        let ghost all = self.items();
        let len: usize = self.data.len();
        loop
            invariant_except_break
                all.len() == count + iter@.len(),
                count + iter.rest().len() <= len,
            ensures
                all.len() == count,
                count <= len,
            decreases iter.rest().len(),
        {
            if iter.next().is_none() {
                break;
            }
            count += 1;
        }
        count
    }

    /// The note-on messages of the track: delta times, keys, velocities and channels.
    pub fn note_on_events(&self) -> (r: Vec<(u28, u8, u7, u4)>)
        ensures
            r@ == note_ons(self.items()),
    {
        let mut iter = self.iter();
        let mut notes: Vec<(u28, u8, u7, u4)> = Vec::new();
        let ghost all = self.items();
        assert(notes@ + note_ons(all) =~= note_ons(all));
        loop
            invariant_except_break
                note_ons(all) == notes@ + note_ons(iter@),
            ensures
                note_ons(all) == notes@,
            decreases iter.rest().len(),
        {
            let ghost before = notes@;
            match iter.next() {
                None => break,
                Some(item) => {
                    proof {
                        lemma_first_item(item_view(item), iter@);
                    }
                    if let Ok(event) = item {
                        if let TrackEventKind::Midi {
                            channel,
                            message: MidiMessage::NoteOn { key, vel },
                        } = event.kind {
                            notes.push((event.delta, key, vel, channel));
                            assert(notes@ + note_ons(iter@) =~= before + (seq![
                                (event.delta, key, vel, channel),
                            ] + note_ons(iter@)));
                        }
                    }
                },
            }
        }
        notes
    }
}

/// The data of the `count` track chunks from `pos` on, one right behind the other.
pub open spec fn track_chunks(d: Seq<u8>, pos: int, count: int) -> Result<Seq<Seq<u8>>, Error>
    decreases count,
{
    if count <= 0 {
        Ok(seq![])
    } else if pos + 8 > d.len() {
        Err(Error::TrackHeadCut)
    } else if !named(d, pos, MTRK) {
        Err(Error::ExpectedTrack)
    } else {
        let end = pos + 8 + be32(d, pos + 4);
        if end > d.len() {
            Err(Error::TrackCut)
        } else {
            match track_chunks(d, end, count - 1) {
                Ok(rest) => Ok(seq![d.subrange(pos + 8, end)] + rest),
                Err(e) => Err(e),
            }
        }
    }
}

/// The file from its header on: the data itself, or, in RIFF data, what starts
/// with the first header chunk that more data follows.
pub open spec fn midi_data(s: Seq<u8>) -> Result<Seq<u8>, Error> {
    if s.len() < 14 {
        Err(Error::DataTooShort)
    } else if named(s, 0, RIFF) {
        match place_of(s, MTHD, 0, s.len() - 1) {
            Some(at) => Ok(s.skip(at)),
            None => Err(Error::RiffWithoutMidi),
        }
    } else {
        Ok(s)
    }
}

/// The header and the tracks of a file from its header on.
pub open spec fn header_and_tracks(d: Seq<u8>) -> Result<(Header, Seq<Seq<u8>>), Error> {
    if !named(d, 0, MTHD) {
        Err(Error::MissingHeader)
    } else if be32(d, 4) != 6 {
        Err(Error::HeaderLength)
    } else {
        match Format::of_number(be16(d, 8)) {
            None => Err(Error::MidiFormat),
            Some(format) => match Timing::of_division(be16(d, 12)) {
                None => Err(Error::MidiFps),
                Some(timing) => match track_chunks(d, 14, be16(d, 10) as int) {
                    Ok(tracks) => Ok((Header { format, timing }, tracks)),
                    Err(e) => Err(e),
                },
            },
        }
    }
}

/// The header and the tracks of a file, or why there are none.
pub open spec fn parsed(s: Seq<u8>) -> Result<(Header, Seq<Seq<u8>>), Error> {
    match midi_data(s) {
        Ok(d) => header_and_tracks(d),
        Err(e) => Err(e),
    }
}

/// Whether the data ends inside a header, before the part of it that is looked at next.
pub open spec fn header_cut(s: Seq<u8>) -> bool {
    match midi_data(s) {
        Ok(d) => named(d, 0, MTHD) && (d.len() < 8 || (be32(d, 4) == 6 && (d.len() < 10 || (
        Format::of_number(be16(d, 8)) is Some && d.len() < 14)))),
        Err(_) => false,
    }
}

/// The length of all tracks together.
pub open spec fn total_len(tracks: Seq<Seq<u8>>) -> nat
    decreases tracks.len(),
{
    if tracks.len() == 0 {
        0
    } else {
        total_len(tracks.drop_last()) + tracks.last().len()
    }
}

/// The number of items of all tracks together.
pub open spec fn total_items(tracks: Seq<Seq<u8>>) -> nat
    decreases tracks.len(),
{
    if tracks.len() == 0 {
        0
    } else {
        total_items(tracks.drop_last()) + items(tracks.last(), None).len()
    }
}

/// The number of note-on messages of all tracks together.
pub open spec fn total_note_ons(tracks: Seq<Seq<u8>>) -> nat
    decreases tracks.len(),
{
    if tracks.len() == 0 {
        0
    } else {
        total_note_ons(tracks.drop_last()) + note_ons(items(tracks.last(), None)).len()
    }
}

/// The ticks of the longest track.
pub open spec fn longest(tracks: Seq<Seq<u8>>) -> nat
    decreases tracks.len(),
{
    if tracks.len() == 0 {
        0
    } else {
        let before = longest(tracks.drop_last());
        let last = ticks_of(items(tracks.last(), None));
        if last > before {
            last
        } else {
            before
        }
    }
}

/// The part of the data from which the header is read.
fn find_midi_data<'a>(data: &'a [u8]) -> (r: Result<&'a [u8], Error>)
    ensures
        match r {
            Ok(d) => midi_data(data@) == Ok::<Seq<u8>, Error>(d@) && d@.len() <= data@.len()
                && d@.len() >= 4 && (named(data@, 0, RIFF) || d@.len() >= 14),
            Err(e) => midi_data(data@) == Err::<Seq<u8>, Error>(e),
        },
{
    let len: usize = data.len();
    if len < 14 {
        return Err(Error::DataTooShort);
    }
    if is_named(data, 0, RIFF) {
        match find_name(data, MTHD, len - 1) {
            Some(at) => {
                assert(data@.subrange(at as int, len as int) =~= data@.skip(at as int));
                Ok(&data[at..len])
            },
            None => Err(Error::RiffWithoutMidi),
        }
    } else {
        Ok(data)
    }
}

/// Whether the data ends inside a header. Such data cannot be parsed.
pub fn is_header_cut(data: &[u8]) -> (r: bool)
    ensures
        r == header_cut(data@),
{
    match find_midi_data(data) {
        Err(_) => false,
        Ok(d) => is_named(d, 0, MTHD) && (d.len() < 8 || (read_be32(d, 4) == 6 && (d.len() < 10 || (
        Format::from_number(read_be16(d, 8)).is_some() && d.len() < 14)))),
    }
}

/// A file in place.
#[derive(Debug)]
pub struct MmapSmf<'a> {
    header: Header,
    tracks: Vec<MmapTrack<'a>>,
}

/// Figures on a file.
#[derive(Debug)]
pub struct FileStats {
    /// The header.
    pub header: Header,
    /// The number of tracks.
    pub track_count: usize,
    /// The number of events of all tracks, with the errors that end some.
    pub total_events: usize,
    /// The number of note-on messages of all tracks.
    pub total_notes: usize,
    /// The ticks of the longest track.
    pub total_duration_ticks: u64,
}

/// The tracks with their data as sequences.
pub open spec fn track_data(tracks: Seq<MmapTrack>) -> Seq<Seq<u8>> {
    Seq::new(tracks.len(), |i: int| tracks[i]@)
}

impl<'a> MmapSmf<'a> {
    /// The data of the tracks.
    pub closed spec fn view(&self) -> Seq<Seq<u8>> {
        track_data(self.tracks@)
    }

    /// The header.
    pub closed spec fn file_header(self) -> Header {
        self.header
    }

    #[verifier::type_invariant]
    spec fn inv(self) -> bool {
        &&& total_len(track_data(self.tracks@)) <= usize::MAX
        &&& forall|i: int|
            0 <= i < self.tracks@.len() ==> (#[trigger] self.tracks@[i])@.len() <= u32::MAX
    }

    /// Parses a file. The tracks are only found, not read.
    ///
    /// The data must not end inside the header; [`is_header_cut`] tells.
    pub fn parse(data: &'a [u8]) -> (r: Result<MmapSmf<'a>, Error>)
        requires
            !header_cut(data@),
        ensures
            match parsed(data@) {
                Ok((header, tracks)) => r matches Ok(smf) && smf.file_header() == header && smf@
                    == tracks,
                Err(e) => r == Err::<MmapSmf<'a>, Error>(e),
            },
    {
        let d: &'a [u8] = match find_midi_data(data) {
            Ok(d) => d,
            Err(e) => return Err(e),
        };
        if !is_named(d, 0, MTHD) {
            return Err(Error::MissingHeader);
        }
        if read_be32(d, 4) != 6 {
            return Err(Error::HeaderLength);
        }
        let format = match Format::from_number(read_be16(d, 8)) {
            Some(format) => format,
            None => return Err(Error::MidiFormat),
        };
        let timing = match Timing::from_division(read_be16(d, 12)) {
            Some(timing) => timing,
            None => return Err(Error::MidiFps),
        };
        match find_tracks(d, read_be16(d, 10)) {
            Ok(tracks) => Ok(MmapSmf { header: Header { format, timing }, tracks }),
            Err(e) => Err(e),
        }
    }

    /// The header of the file.
    pub fn header(&self) -> (r: &Header)
        ensures
            *r == self.file_header(),
    {
        &self.header
    }

    /// The tracks of the file.
    pub fn tracks(&self) -> (r: &[MmapTrack<'a>])
        ensures
            track_data(r@) == self@,
    {
        self.tracks.as_slice()
    }

    /// The number of tracks.
    pub fn track_count(&self) -> (r: usize)
        ensures
            r == self@.len(),
    {
        self.tracks.len()
    }
}

/// The number of items, of note-on messages and the ticks of a track.
fn track_stats(track: &MmapTrack) -> (r: (usize, usize, u64))
    requires
        track@.len() <= u32::MAX,
    ensures
        r.0 == track.items().len(),
        r.1 == note_ons(track.items()).len(),
        r.2 == ticks_of(track.items()),
        r.1 <= r.0 <= track@.len(),
{
    let mut iter = track.iter();
    let mut events: usize = 0;
    let mut notes: usize = 0;
    let mut ticks: u64 = 0;
    let ghost all = track.items();
    let len: usize = track.data.len();
    loop
        invariant_except_break
            len <= u32::MAX,
            all.len() == events + iter@.len(),
            note_ons(all).len() == notes + note_ons(iter@).len(),
            ticks_of(all) == ticks + ticks_of(iter@),
            events + iter.rest().len() <= len,
            notes <= events,
            ticks <= events * 0x1000_0000,
        ensures
            all.len() == events,
            note_ons(all).len() == notes,
            ticks_of(all) == ticks,
            notes <= events <= len,
        decreases iter.rest().len(),
    {
        match iter.next() {
            None => break,
            Some(item) => {
                proof {
                    lemma_first_item(item_view(item), iter@);
                }
                events += 1;
                if let Ok(event) = item {
                    let delta: u32 = event.delta.as_int();
                    ticks += delta as u64;
                    if let TrackEventKind::Midi { message: MidiMessage::NoteOn { .. }, .. } =
                        event.kind {
                        notes += 1;
                    }
                }
            },
        }
    }
    (events, notes, ticks)
}

/// The events of a track, with their data copied.
fn copied_events(track: &MmapTrack) -> (r: Vec<TrackEvent<Vec<u8>>>)
    ensures
        event_views(r@) == events_of(track.items()),
{
    let mut iter = track.iter();
    let mut events: Vec<TrackEvent<Vec<u8>>> = Vec::new();
    let ghost all = track.items();
    assert(event_views(events@) + events_of(all) =~= events_of(all));
    loop
        invariant_except_break
            events_of(all) == event_views(events@) + events_of(iter@),
        ensures
            events_of(all) == event_views(events@),
        decreases iter.rest().len(),
    {
        let ghost before = event_views(events@);
        match iter.next() {
            None => {
                assert(event_views(events@) + seq![] =~= event_views(events@));
                break;
            },
            Some(item) => {
                proof {
                    lemma_first_item(item_view(item), iter@);
                }
                if let Ok(event) = item {
                    events.push(event.to_static());
                    assert(event_views(events@) =~= before.push(event@));
                    assert(event_views(events@) + events_of(iter@) =~= before + (seq![event@]
                        + events_of(iter@)));
                }
            },
        }
    }
    events
}

/// Events with their data as sequences.
pub open spec fn event_views(events: Seq<TrackEvent<Vec<u8>>>) -> Seq<TrackEvent<Seq<u8>>> {
    Seq::new(events.len(), |i: int| events[i]@)
}

impl<'a> MmapSmf<'a> {
    /// The file with all its data copied. Errors that end tracks are left out.
    pub fn to_owned(&self) -> (r: Smf)
        ensures
            r.header == self.file_header(),
            r.tracks@.len() == self@.len(),
            forall|t: int|
                0 <= t < self@.len() ==> event_views((#[trigger] r.tracks@[t])@) == events_of(
                    items(self@[t], None),
                ),
    {
        let mut tracks: Vec<Vec<TrackEvent<Vec<u8>>>> = Vec::new();
        let mut t: usize = 0;
        while t < self.tracks.len()
            invariant
                t <= self.tracks@.len(),
                tracks@.len() == t,
                forall|k: int|
                    0 <= k < t ==> event_views((#[trigger] tracks@[k])@) == events_of(
                        items(self@[k], None),
                    ),
            decreases self.tracks@.len() - t,
        {
            assert(self@[t as int] == self.tracks@[t as int]@);
            tracks.push(copied_events(&self.tracks[t]));
            t += 1;
        }
        Smf { header: self.header, tracks }
    }

    /// Figures on the file.
    pub fn stats(&self) -> (r: FileStats)
        ensures
            r.header == self.file_header(),
            r.track_count == self@.len(),
            r.total_events == total_items(self@),
            r.total_notes == total_note_ons(self@),
            r.total_duration_ticks == longest(self@),
    {
        proof {
            use_type_invariant(self);
        }
        let ghost data = self@;
        let mut total_events: usize = 0;
        let mut total_notes: usize = 0;
        let mut total_duration_ticks: u64 = 0;
        let mut t: usize = 0;
        assert(data.take(0) =~= seq![]);
        while t < self.tracks.len()
            invariant
                t <= self.tracks@.len(),
                data == track_data(self.tracks@),
                total_len(data) <= usize::MAX,
                forall|i: int|
                    0 <= i < self.tracks@.len() ==> (#[trigger] self.tracks@[i])@.len() <= u32::MAX,
                total_events == total_items(data.take(t as int)),
                total_notes == total_note_ons(data.take(t as int)),
                total_duration_ticks == longest(data.take(t as int)),
                total_notes <= total_events <= total_len(data.take(t as int)),
            decreases self.tracks@.len() - t,
        {
            assert(data.take(t + 1).drop_last() =~= data.take(t as int));
            assert(data[t as int] == self.tracks@[t as int]@);
            proof {
                lemma_part_total(data, t + 1);
            }
            let (events, notes, ticks) = track_stats(&self.tracks[t]);
            total_events += events;
            total_notes += notes;
            if ticks > total_duration_ticks {
                total_duration_ticks = ticks;
            }
            t += 1;
        }
        assert(data.take(t as int) =~= data);
        FileStats {
            header: self.header,
            track_count: self.tracks.len(),
            total_events,
            total_notes,
            total_duration_ticks,
        }
    }
}

/// Some of the tracks are no longer than all.
proof fn lemma_part_total(tracks: Seq<Seq<u8>>, n: int)
    requires
        0 <= n <= tracks.len(),
    ensures
        total_len(tracks.take(n)) <= total_len(tracks),
    decreases tracks.len(),
{
    if n < tracks.len() {
        assert(tracks.drop_last().take(n) =~= tracks.take(n));
        lemma_part_total(tracks.drop_last(), n);
    } else {
        assert(tracks.take(n) =~= tracks);
    }
}

/// Only the last item of a track can be an error.
pub proof fn lemma_error_ends(d: Seq<u8>, running: Option<u8>, i: int)
    requires
        0 <= i < items(d, running).len(),
        items(d, running)[i] is Err,
    ensures
        i == items(d, running).len() - 1,
    decreases d.len(),
{
    let step = item_step(d, running);
    lemma_item_step(d, running);
    if i > 0 {
        assert(items(d, running)[i] == items(step.rest, step.running)[i - 1]);
        lemma_error_ends(step.rest, step.running, i - 1);
    } else {
        assert(items(step.rest, step.running).len() == 0);
    }
}

/// The events of a track are its items, up to the error that may end them.
pub proof fn lemma_events_are_items(d: Seq<u8>, running: Option<u8>)
    ensures
        ({
            let all = items(d, running);
            let events = events_of(all);
            &&& events.len() <= all.len() <= events.len() + 1
            &&& forall|i: int|
                0 <= i < events.len() ==> all[i] == Ok::<TrackEvent<Seq<u8>>, Error>(
                    #[trigger] events[i],
                )
        }),
    decreases d.len(),
{
    if d.len() > 0 {
        let step = item_step(d, running);
        lemma_item_step(d, running);
        let rest = items(step.rest, step.running);
        lemma_first_item(step.item, rest);
        lemma_events_are_items(step.rest, step.running);
    }
}

/// Finds the tracks of a file from its header on.
fn find_tracks<'a>(d: &'a [u8], num_tracks: u16) -> (r: Result<Vec<MmapTrack<'a>>, Error>)
    requires
        d@.len() >= 14,
    ensures
        match r {
            Ok(tracks) => {
                &&& track_chunks(d@, 14, num_tracks as int) == Ok::<Seq<Seq<u8>>, Error>(
                    track_data(tracks@),
                )
                &&& total_len(track_data(tracks@)) <= d@.len() <= usize::MAX
                &&& forall|i: int|
                    0 <= i < tracks@.len() ==> (#[trigger] tracks@[i])@.len() <= u32::MAX
            },
            Err(e) => track_chunks(d@, 14, num_tracks as int) == Err::<Seq<Seq<u8>>, Error>(e),
        },
{
    let len: usize = d.len();
    let mut tracks: Vec<MmapTrack<'a>> = Vec::new();
    let mut pos: usize = 14;
    let mut left: u16 = num_tracks;
    let ghost all = track_chunks(d@, 14, num_tracks as int);
    proof {
        if let Ok(rest) = all {
            assert(track_data(tracks@) + rest =~= rest);
        }
    }
    while left > 0
        invariant
            len == d@.len(),
            pos <= len,
            total_len(track_data(tracks@)) <= pos,
            forall|i: int| 0 <= i < tracks@.len() ==> (#[trigger] tracks@[i])@.len() <= u32::MAX,
            all == track_chunks(d@, 14, num_tracks as int),
            match track_chunks(d@, pos as int, left as int) {
                Ok(rest) => all == Ok::<Seq<Seq<u8>>, Error>(track_data(tracks@) + rest),
                Err(e) => all == Err::<Seq<Seq<u8>>, Error>(e),
            },
        decreases left,
    {
        if len - pos < 8 {
            return Err(Error::TrackHeadCut);
        }
        if !is_named(d, pos, MTRK) {
            return Err(Error::ExpectedTrack);
        }
        let track_len: u32 = read_be32(d, pos + 4);
        let start: usize = pos + 8;
        if track_len as u64 > (len - start) as u64 {
            return Err(Error::TrackCut);
        }
        let end: usize = start + track_len as usize;
        let ghost before = track_data(tracks@);
        let ghost rest = track_chunks(d@, end as int, left - 1);
        let track = MmapTrack::new(&d[start..end]);
        tracks.push(track);
        proof {
            assert(track_data(tracks@).drop_last() =~= before);
            assert(track_data(tracks@).last() == track@);
            if let Ok(rest) = rest {
                assert(before + (seq![track@] + rest) =~= track_data(tracks@) + rest);
            }
        }
        pos = end;
        left -= 1;
    }
    assert(track_data(tracks@) + seq![] =~= track_data(tracks@));
    Ok(tracks)
}

} // verus!
