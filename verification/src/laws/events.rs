//! Events and the bytes that they are read from.

use vstd::prelude::*;

use crate::bytes::{be16, be24};
use crate::cue::Cue;
use crate::error::Error;
use crate::event::{MetaMessage, MidiMessage, TrackEventKind};
use crate::fast_midi::{scan_body, scan_cues, track_step, MidiEvent};
use crate::loader::{cue_of, cue_of_event};
use crate::mmap::{event_kind, item_step, items, meta_message, next_running, prefixed};
use crate::overlap::{raw_events, raw_kind, raw_running, raw_step, RawEventKind};
use crate::primitive::{group_low_bits, Fps};
use crate::vlq::{lemma_vlq_round_trip, vlq_bytes, vlq_complete, vlq_len, vlq_value};

verus! {

/// Whether an event of the track reader is the message with this status byte and
/// these data bytes.
pub open spec fn is_message_of(event: MidiEvent<Seq<u8>>, status: u8, d1: u8, d2: u8) -> bool {
    if 0x80 <= status <= 0x8F {
        event matches MidiEvent::NoteOff { channel, key, velocity } && channel == status - 0x80 && key
            == d1 && velocity == d2
    } else if 0x90 <= status <= 0x9F && d2 == 0 {
        event matches MidiEvent::NoteOff { channel, key, velocity } && channel == status - 0x90 && key
            == d1 && velocity == 0
    } else if 0x90 <= status <= 0x9F {
        event matches MidiEvent::NoteOn { channel, key, velocity } && channel == status - 0x90 && key
            == d1 && velocity == d2
    } else if 0xB0 <= status <= 0xBF {
        event matches MidiEvent::ControlChange { channel, controller, value } && channel == status
            - 0xB0 && controller == d1 && value == d2
    } else if 0xC0 <= status <= 0xCF {
        event matches MidiEvent::ProgramChange { channel, program } && channel == status - 0xC0
            && program == d1
    } else if 0xE0 <= status <= 0xEF {
        event matches MidiEvent::PitchBend { channel, bend } && channel == status - 0xE0 && bend == (
        if d1 < 128 || d2 % 2 == 0 {
            128 * d2 + d1
        } else {
            128 * d2 + d1 - 128
        })
    } else {
        event is Other
    }
}

/// The byte at `i`, or 0 where the data has ended.
pub open spec fn at_or_0(s: Seq<u8>, i: int) -> u8 {
    if i < s.len() {
        s[i]
    } else {
        0
    }
}

/// How many data bytes a channel status asks for.
pub open spec fn asked(status: u8) -> int {
    if 0xC0 <= status <= 0xDF {
        1
    } else {
        2
    }
}

proof fn lemma_bend(d1: u8, d2: u8)
    ensures
        (((d2 as u16) << 7u16) | (d1 as u16)) == if d1 < 128 || d2 % 2 == 0 {
            128 * d2 + d1
        } else {
            128 * d2 + d1 - 128
        },
{
    assert(d1 < 128 || d2 % 2 == 0 ==> (((d2 as u16) << 7u16) | (d1 as u16)) == 128 * d2 + d1)
        by (bit_vector);
    assert(d1 >= 128 && d2 % 2 == 1 ==> (((d2 as u16) << 7u16) | (d1 as u16)) == 128 * d2 + d1 - 128)
        by (bit_vector);
}

/// The track reader takes a channel message for what its bytes say, with or without
/// its status byte, and goes on right behind it. Data that is missing counts as 0.
pub proof fn lemma_track_reader_message(s: Seq<u8>, offset: int, last: Option<u8>)
    requires
        0 <= offset,
        last matches Some(status) ==> 0x80 <= status < 0xF0,
        ({
            let at = offset + vlq_len(s, offset);
            at < s.len() && s[at] < 0xF0 && (s[at] < 0x80 ==> last is Some)
        }),
    ensures
        ({
            let at = offset + vlq_len(s, offset);
            let status = if s[at] >= 0x80 {
                s[at]
            } else {
                last->0
            };
            let data = if s[at] >= 0x80 {
                at + 1
            } else {
                at
            };
            let step = track_step(s, offset, last);
            &&& step.item matches Some((delta, event)) && delta == vlq_value(s, offset)
                && is_message_of(event, status, at_or_0(s, data), at_or_0(s, data + 1))
            &&& step.status == Some(status)
            &&& data + asked(status) <= s.len() ==> step.offset == data + asked(status)
            &&& data + asked(status) > s.len() ==> step.offset == s.len()
        }),
{
    reveal(track_step);
    let at = offset + vlq_len(s, offset);
    let data = if s[at] >= 0x80 {
        at + 1
    } else {
        at
    };
    lemma_bend(at_or_0(s, data), at_or_0(s, data + 1));
}

/// The track reader takes a meta event with its type and its data, as far as the
/// track goes, and keeps the channel status.
pub proof fn lemma_track_reader_meta(s: Seq<u8>, offset: int, last: Option<u8>, i: int)
    requires
        0 <= offset,
        ({
            let at = offset + vlq_len(s, offset);
            at + 1 < s.len() && s[at] == 0xFF
        }),
    ensures
        ({
            let at = offset + vlq_len(s, offset);
            let start = at + 2 + vlq_len(s, at + 2);
            let size = vlq_value(s, at + 2);
            let step = track_step(s, offset, last);
            &&& step.item matches Some((delta, MidiEvent::Meta { event_type, data })) && {
                &&& delta == vlq_value(s, offset)
                &&& event_type == s[at + 1]
                &&& start + size <= s.len() ==> data.len() == size
                &&& start + size > s.len() ==> data.len() == s.len() - start
                &&& 0 <= i < data.len() ==> data[i] == s[start + i]
                &&& step.offset == start + data.len()
            }
            &&& step.status == last
        }),
{
    reveal(track_step);
}

/// The track reader passes over the data of system exclusive and escape events, takes
/// other system messages without data, and ends with the track or at a data byte
/// without a status.
pub proof fn lemma_track_reader_rest(s: Seq<u8>, offset: int, last: Option<u8>)
    requires
        0 <= offset,
    ensures
        ({
            let at = offset + vlq_len(s, offset);
            let step = track_step(s, offset, last);
            let start = at + 1 + vlq_len(s, at + 1);
            let size = vlq_value(s, at + 1);
            &&& at >= s.len() ==> step.item is None
            &&& at < s.len() && s[at] < 0x80 && last is None ==> step.item is None
            &&& at < s.len() && 0xF0 <= s[at] < 0xFF ==> {
                &&& step.item == Some((vlq_value(s, offset), MidiEvent::<Seq<u8>>::Other))
                &&& step.status == last
            }
            &&& at < s.len() && (s[at] == 0xF0 || s[at] == 0xF7) ==> {
                &&& start + size <= s.len() ==> step.offset == start + size
                &&& start + size > s.len() ==> step.offset == s.len()
            }
            &&& at < s.len() && 0xF0 < s[at] < 0xFF && s[at] != 0xF7 ==> step.offset == at + 1
        }),
{
    reveal(track_step);
}

/// What an event of the track reader means for the notes: a note-on with a velocity
/// strikes its key, one without and a note-off let it go, and three bytes of a tempo
/// event set the tempo.
pub proof fn lemma_event_cues(channel: u8, key: u8, velocity: u8, data: Seq<u8>, kind: u8)
    ensures
        velocity > 0 ==> cue_of(MidiEvent::NoteOn { channel, key, velocity }) == (Cue::Strike {
            key,
            velocity,
        }),
        cue_of(MidiEvent::NoteOn { channel, key, velocity: 0 }) == (Cue::Release { key }),
        cue_of(MidiEvent::NoteOff { channel, key, velocity }) == (Cue::Release { key }),
        ({
            let cue = cue_of(MidiEvent::Meta { event_type: kind, data });
            &&& kind == 0x51 && data.len() == 3 && (data[0] > 0 || data[1] > 0 || data[2] > 0)
                ==> cue == (Cue::Tempo {
                microseconds: (65536 * data[0] + 256 * data[1] + data[2]) as u32,
            })
            &&& kind != 0x51 || data.len() != 3 ==> cue is Other
            &&& data.len() == 3 && data[0] == 0 && data[1] == 0 && data[2] == 0 ==> cue is Other
        }),
{
    reveal(be24);
}

/// What a scan takes from the data of a status: notes with their keys and velocities,
/// tempos with their three bytes, and how far it goes on.
pub proof fn lemma_scan_data(s: Seq<u8>, at: int, status: u8)
    requires
        0 <= at < s.len(),
    ensures
        ({
            let (cue, next) = scan_body(s, at, status);
            let start = at + 1 + vlq_len(s, at + 1);
            let size = vlq_value(s, at + 1);
            &&& 0x90 <= status <= 0x9F && at + 2 <= s.len() && s[at + 1] > 0 ==> cue
                == (Cue::Strike { key: s[at], velocity: s[at + 1] }) && next == at + 2
            &&& 0x90 <= status <= 0x9F && at + 2 <= s.len() && s[at + 1] == 0 ==> cue
                == (Cue::Release { key: s[at] }) && next == at + 2
            &&& 0x80 <= status <= 0x8F && at + 2 <= s.len() ==> cue == (Cue::Release { key: s[at] })
                && next == at + 2
            &&& 0xA0 <= status <= 0xEF && at + asked(status) <= s.len() ==> cue is Other && next == at
                + asked(status)
            &&& 0x80 <= status <= 0xEF && at + asked(status) > s.len() ==> cue is Other && next
                == s.len()
            &&& status == 0xFF && start + size <= s.len() ==> next == start + size
            &&& status == 0xFF && s[at] == 0x51 && size >= 3 && start + 3 <= s.len() && (s[start] > 0
                || s[start + 1] > 0 || s[start + 2] > 0) ==> cue == (Cue::Tempo {
                microseconds: (65536 * s[start] + 256 * s[start + 1] + s[start + 2]) as u32,
            })
            &&& status == 0xFF && (s[at] != 0x51 || size < 3) ==> cue is Other
            &&& 0xF0 <= status < 0xFF ==> cue is Other
            &&& (status == 0xF0 || status == 0xF7) && at + vlq_len(s, at) + vlq_value(s, at)
                <= s.len() ==> next == at + vlq_len(s, at) + vlq_value(s, at)
        }),
{
    reveal(scan_body);
    reveal(be24);
}

/// A scan goes from event to event: a delta time, a status byte unless the last channel
/// status goes on, and data.
pub proof fn lemma_scan_goes_on(s: Seq<u8>, offset: int, last: u8)
    requires
        0 <= offset,
        offset + vlq_len(s, offset) < s.len(),
    ensures
        ({
            let at = offset + vlq_len(s, offset);
            let status = if s[at] >= 0x80 {
                s[at]
            } else {
                last
            };
            let (cue, next) = scan_body(
                s,
                if s[at] >= 0x80 {
                    at + 1
                } else {
                    at
                },
                status,
            );
            scan_cues(s, offset, last) == seq![(vlq_value(s, offset), cue)] + scan_cues(
                s,
                next,
                if 0x80 <= s[at] < 0xF0 {
                    s[at]
                } else {
                    last
                },
            )
        }),
{
}

/// The low seven bits of a byte.
pub open spec fn low7(b: u8) -> int {
    if b < 128 {
        b as int
    } else {
        b - 128
    }
}

/// Whether a channel message holds the data bytes behind its status byte.
pub open spec fn holds(message: MidiMessage, status: u8, d1: u8, d2: u8) -> bool {
    if 0x80 <= status <= 0x8F {
        message matches MidiMessage::NoteOff { key, vel } && key == d1 && vel.value() == low7(d2)
    } else if 0x90 <= status <= 0x9F {
        message matches MidiMessage::NoteOn { key, vel } && key == d1 && vel.value() == low7(d2)
    } else if 0xA0 <= status <= 0xAF {
        message matches MidiMessage::Aftertouch { key, vel } && key.value() == low7(d1)
            && vel.value() == low7(d2)
    } else if 0xB0 <= status <= 0xBF {
        message matches MidiMessage::Controller { controller, value } && controller.value() == low7(
            d1,
        ) && value.value() == low7(d2)
    } else if 0xC0 <= status <= 0xCF {
        message matches MidiMessage::ProgramChange { program } && program.value() == low7(d1)
    } else if 0xD0 <= status <= 0xDF {
        message matches MidiMessage::ChannelAftertouch { vel } && vel.value() == low7(d1)
    } else {
        message matches MidiMessage::PitchBend { bend } && bend.0.value() == 128 * low7(d2) + low7(
            d1,
        )
    }
}

/// A channel message that is read in place holds its data bytes as they stand, with or
/// without its status byte in front. Where it is cut off, that is the error.
pub proof fn lemma_message_in_place(d: Seq<u8>, running: Option<u8>)
    requires
        d.len() > 0,
        d[0] < 0xF0,
        d[0] < 0x80 ==> running is Some,
        running matches Some(status) ==> 0x80 <= status < 0xF0,
    ensures
        ({
            let status = if d[0] >= 0x80 {
                d[0]
            } else {
                running->0
            };
            let at = if d[0] >= 0x80 {
                1int
            } else {
                0
            };
            if at + asked(status) > d.len() {
                event_kind(d, running) == Err::<(TrackEventKind<Seq<u8>>, int), Error>(
                    Error::ChannelMessageCut,
                )
            } else {
                event_kind(d, running) matches Ok((TrackEventKind::Midi { channel, message }, n)) && {
                    &&& 16 * (status / 16) + channel.value() == status
                    &&& holds(message, status, d[at], at_or_0(d, at + 1))
                    &&& n == at + asked(status)
                }
            }
        }),
{
    broadcast use group_low_bits;

    reveal(event_kind);
}

/// The status byte that a channel message and its channel are written with.
pub open spec fn status_back(channel: int, message: MidiMessage) -> int {
    channel + match message {
        MidiMessage::NoteOff { .. } => 0x80int,
        MidiMessage::NoteOn { .. } => 0x90,
        MidiMessage::Aftertouch { .. } => 0xA0,
        MidiMessage::Controller { .. } => 0xB0,
        MidiMessage::ProgramChange { .. } => 0xC0,
        MidiMessage::ChannelAftertouch { .. } => 0xD0,
        MidiMessage::PitchBend { .. } => 0xE0,
    }
}

/// The data bytes that a channel message is written with.
pub open spec fn data_back(message: MidiMessage) -> Seq<int> {
    match message {
        MidiMessage::NoteOff { key, vel } => seq![key as int, vel.value() as int],
        MidiMessage::NoteOn { key, vel } => seq![key as int, vel.value() as int],
        MidiMessage::Aftertouch { key, vel } => seq![key.value() as int, vel.value() as int],
        MidiMessage::Controller { controller, value } => seq![
            controller.value() as int,
            value.value() as int,
        ],
        MidiMessage::ProgramChange { program } => seq![program.value() as int],
        MidiMessage::ChannelAftertouch { vel } => seq![vel.value() as int],
        MidiMessage::PitchBend { bend } => seq![
            bend.0.value() as int % 128,
            bend.0.value() as int / 128,
        ],
    }
}

/// Writing a channel message that was read gives the bytes that were read.
pub proof fn lemma_message_back(status: u8, d1: u8, d2: u8, after: Seq<u8>)
    requires
        0x80 <= status < 0xF0,
        d1 < 128,
        d2 < 128,
    ensures
        event_kind(seq![status, d1, d2] + after, None) matches Ok(
            (TrackEventKind::Midi { channel, message }, n),
        ) && {
            &&& status_back(channel.value() as int, message) == status
            &&& data_back(message) == if 0xC0 <= status <= 0xDF {
                seq![d1 as int]
            } else {
                seq![d1 as int, d2 as int]
            }
            &&& n == 1 + data_back(message).len()
        },
{
    let d = seq![status, d1, d2] + after;
    assert(d[0] == status && d[1] == d1 && d[2] == d2);
    lemma_message_in_place(d, None);
    if let Ok((TrackEventKind::Midi { channel, message }, n)) = event_kind(d, None) {
        if 0xE0 <= status {
            let bend: int = 128 * d2 + d1;
            assert(bend % 128 == d1 && bend / 128 == d2);
        }
        assert(data_back(message) =~= if 0xC0 <= status <= 0xDF {
            seq![d1 as int]
        } else {
            seq![d1 as int, d2 as int]
        });
    }
}

/// Data behind its length is read back.
proof fn lemma_sized(data: Seq<u8>, after: Seq<u8>, bad_length: Error, cut: Error)
    requires
        data.len() < 0x1000_0000,
    ensures
        prefixed(vlq_bytes(data.len() as u32) + data + after, bad_length, cut) == Ok::<
            (Seq<u8>, int),
            Error,
        >((data, (vlq_bytes(data.len() as u32) + data).len() as int)),
{
    let size = data.len() as u32;
    let d = vlq_bytes(size) + data + after;
    let n = vlq_bytes(size).len() as int;
    assert(d =~= Seq::<u8>::empty() + vlq_bytes(size) + (data + after));
    lemma_vlq_round_trip(seq![], size, data + after);
    assert(d.subrange(n, n + size) =~= data);
}

/// System exclusive, escape and meta events that are written with their lengths are
/// read in place with their data, and the reader goes on right behind them.
pub proof fn lemma_data_in_place(
    data: Seq<u8>,
    meta_type: u8,
    after: Seq<u8>,
    running: Option<u8>,
)
    requires
        data.len() < 0x1000_0000,
    ensures
        ({
            let sized = vlq_bytes(data.len() as u32) + data;
            &&& event_kind(seq![0xF0u8] + (sized + after), running) == Ok::<
                (TrackEventKind<Seq<u8>>, int),
                Error,
            >((TrackEventKind::SysEx(data), 1 + sized.len() as int))
            &&& event_kind(seq![0xF7u8] + (sized + after), running) == Ok::<
                (TrackEventKind<Seq<u8>>, int),
                Error,
            >((TrackEventKind::Escape(data), 1 + sized.len() as int))
            &&& event_kind(seq![0xFFu8, meta_type] + (sized + after), running) == Ok::<
                (TrackEventKind<Seq<u8>>, int),
                Error,
            >((TrackEventKind::Meta(meta_message(meta_type, data)), 2 + sized.len() as int))
        }),
{
    let sized = vlq_bytes(data.len() as u32) + data;
    let sysex = seq![0xF0u8] + (sized + after);
    let escape = seq![0xF7u8] + (sized + after);
    let meta = seq![0xFFu8, meta_type] + (sized + after);
    reveal(event_kind);
    lemma_sized(data, after, Error::SysExLength, Error::SysExDataCut);
    lemma_sized(data, after, Error::EscapeLength, Error::EscapeDataCut);
    lemma_sized(data, after, Error::MetaLength, Error::MetaDataCut);
    assert(sysex.skip(1) =~= sized + after);
    assert(escape.skip(1) =~= sized + after);
    assert(meta.skip(2) =~= sized + after);
}

/// The type that a meta message is written with.
pub open spec fn meta_type_back(message: MetaMessage<Seq<u8>>) -> int {
    match message {
        MetaMessage::TrackNumber(_) => 0x00int,
        MetaMessage::Text(_) => 0x01,
        MetaMessage::Copyright(_) => 0x02,
        MetaMessage::TrackName(_) => 0x03,
        MetaMessage::InstrumentName(_) => 0x04,
        MetaMessage::Lyric(_) => 0x05,
        MetaMessage::Marker(_) => 0x06,
        MetaMessage::CuePoint(_) => 0x07,
        MetaMessage::ProgramName(_) => 0x08,
        MetaMessage::DeviceName(_) => 0x09,
        MetaMessage::MidiChannel(_) => 0x20,
        MetaMessage::MidiPort(_) => 0x21,
        MetaMessage::EndOfTrack => 0x2F,
        MetaMessage::Tempo(_) => 0x51,
        MetaMessage::SmpteOffset(_) => 0x54,
        MetaMessage::TimeSignature(_, _, _, _) => 0x58,
        MetaMessage::KeySignature(_, _) => 0x59,
        MetaMessage::SequencerSpecific(_) => 0x7F,
        MetaMessage::Unknown(t, _) => t as int,
    }
}

/// The number of a frame rate in the first byte of an offset.
pub open spec fn fps_back(fps: Fps) -> int {
    match fps {
        Fps::Fps24 => 0int,
        Fps::Fps25 => 1,
        Fps::Fps29 => 2,
        Fps::Fps30 => 3,
    }
}

/// Whether a meta message holds the data that it was read from, where that is long
/// enough and every part of it is in its range.
pub open spec fn meta_holds(message: MetaMessage<Seq<u8>>, d: Seq<u8>) -> bool {
    match message {
        MetaMessage::TrackNumber(n) => match n {
            Some(n) => d.len() >= 2 && n == 256 * d[0] + d[1],
            None => d.len() < 2,
        },
        MetaMessage::Text(b) => b == d,
        MetaMessage::Copyright(b) => b == d,
        MetaMessage::TrackName(b) => b == d,
        MetaMessage::InstrumentName(b) => b == d,
        MetaMessage::Lyric(b) => b == d,
        MetaMessage::Marker(b) => b == d,
        MetaMessage::CuePoint(b) => b == d,
        MetaMessage::ProgramName(b) => b == d,
        MetaMessage::DeviceName(b) => b == d,
        MetaMessage::MidiChannel(c) => d.len() >= 1 && c.value() == d[0] % 16,
        MetaMessage::MidiPort(p) => d.len() >= 1 && p.value() == low7(d[0]),
        MetaMessage::EndOfTrack => true,
        MetaMessage::Tempo(t) => d.len() >= 3 && t.value() == 65536 * d[0] + 256 * d[1] + d[2],
        MetaMessage::SmpteOffset(t) => {
            let rate = d[0] / 32 % 4;
            let frames = if rate == 0 {
                24int
            } else if rate == 1 {
                25
            } else if rate == 2 {
                29
            } else {
                30
            };
            &&& d.len() >= 5
            &&& if d[0] % 32 < 24 && d[1] < 60 && d[2] < 60 && d[3] < frames && d[4] < 100 {
                &&& t.hour == d[0] % 32
                &&& t.minute == d[1]
                &&& t.second == d[2]
                &&& t.frame == d[3]
                &&& t.subframe == d[4]
                &&& fps_back(t.fps) == rate
            } else {
                t.hour == 0 && t.minute == 0 && t.second == 0 && t.frame == 0 && t.subframe == 0
                    && t.fps is Fps24
            }
        },
        MetaMessage::TimeSignature(a, b, c, e) => d.len() >= 4 && a == d[0] && b == d[1] && c
            == d[2] && e == d[3],
        MetaMessage::KeySignature(k, minor) => d.len() >= 2 && k == (if d[0] < 128 {
            d[0] as int
        } else {
            d[0] - 256
        }) && minor == (d[1] > 0),
        MetaMessage::SequencerSpecific(b) => b == d,
        MetaMessage::Unknown(_, b) => b == d,
    }
}

proof fn lemma_signed(b: u8)
    ensures
        (b as i8) == if b < 128 {
            b as int
        } else {
            b - 256
        },
{
    assert(b < 128 ==> (b as i8) == b) by (bit_vector);
    assert(b >= 128 ==> (b as i8) == b - 256) by (bit_vector);
}

/// A meta message has the type and holds the data that it was read from. A message of
/// a known type is an unknown one only where its data is too short for it.
pub proof fn lemma_meta_back(meta_type: u8, d: Seq<u8>)
    ensures
        ({
            let message = meta_message(meta_type, d);
            &&& meta_type_back(message) == meta_type
            &&& meta_holds(message, d)
            &&& message is Unknown ==> {
                ||| 0x0A <= meta_type <= 0x1F
                ||| 0x22 <= meta_type <= 0x7E && meta_type != 0x2F && meta_type != 0x51 && meta_type
                    != 0x54 && meta_type != 0x58 && meta_type != 0x59
                ||| meta_type >= 0x80
                ||| (meta_type == 0x20 || meta_type == 0x21) && d.len() < 1
                ||| meta_type == 0x51 && d.len() < 3
                ||| meta_type == 0x54 && d.len() < 5
                ||| meta_type == 0x58 && d.len() < 4
                ||| meta_type == 0x59 && d.len() < 2
            }
        }),
{
    broadcast use group_low_bits;

    reveal(be16);
    reveal(be24);
    if d.len() > 0 {
        lemma_signed(d[0]);
    }
}

/// An event is read in place behind its delta time, and the rest of the track is what
/// stands behind it.
pub proof fn lemma_event_in_place(v: u32, body: Seq<u8>, running: Option<u8>)
    requires
        v < 0x1000_0000,
        event_kind(body, running) is Ok,
    ensures
        ({
            let step = item_step(vlq_bytes(v) + body, running);
            let (kind, n) = event_kind(body, running)->Ok_0;
            &&& step.item matches Ok(event) && event.delta.value() == v && event.kind == kind
            &&& step.rest == body.skip(n)
        }),
{
    broadcast use group_low_bits;

    let d = vlq_bytes(v) + body;
    assert(d =~= Seq::<u8>::empty() + vlq_bytes(v) + body);
    lemma_vlq_round_trip(seq![], v, body);
    assert(d.skip(vlq_bytes(v).len() as int) =~= body);
}

/// What the bytes of a channel message mean for the notes, read in place: notes by key
/// and the low seven bits of the velocity.
pub proof fn lemma_note_in_place(d: Seq<u8>)
    requires
        d.len() >= 3,
        0x80 <= d[0] <= 0x9F,
    ensures
        event_kind(d, None) matches Ok((kind, _)) && forall|event: crate::event::TrackEvent<Seq<u8>>|
            #![trigger cue_of_event(event)]
            event.kind == kind ==> cue_of_event(event) == if d[0] >= 0x90 && low7(d[2]) > 0 {
                Cue::Strike { key: d[1], velocity: low7(d[2]) as u8 }
            } else {
                Cue::Release { key: d[1] }
            },
{
    lemma_message_in_place(d, None);
}

/// A track that is to be written again is read with its status and data bytes as they
/// stand, with the status byte of the message or with the last one.
pub proof fn lemma_raw_message(d: Seq<u8>, running: Option<u8>)
    requires
        d.len() > 0,
        d[0] < 0xF0,
        d[0] < 0x80 ==> running is Some,
        running matches Some(status) ==> 0x80 <= status < 0xF0,
    ensures
        ({
            let status = if d[0] >= 0x80 {
                d[0]
            } else {
                running->0
            };
            let at = if d[0] >= 0x80 {
                1int
            } else {
                0
            };
            if at + asked(status) > d.len() {
                raw_kind(d, running) == Err::<(RawEventKind<Seq<u8>>, int), Error>(
                    Error::UnexpectedEof,
                )
            } else {
                raw_kind(d, running) == Ok::<(RawEventKind<Seq<u8>>, int), Error>(
                    (
                        RawEventKind::Midi {
                            status,
                            data1: d[at],
                            data2: if asked(status) == 2 {
                                Some(d[at + 1])
                            } else {
                                None
                            },
                        },
                        at + asked(status),
                    ),
                )
            }
        }),
{
    reveal(raw_kind);
}

/// Data events of a track that is to be written again are read with their data.
pub proof fn lemma_raw_data(data: Seq<u8>, meta_type: u8, after: Seq<u8>, running: Option<u8>)
    requires
        data.len() < 0x1000_0000,
    ensures
        ({
            let sized = vlq_bytes(data.len() as u32) + data;
            &&& raw_kind(seq![0xF0u8] + (sized + after), running) == Ok::<
                (RawEventKind<Seq<u8>>, int),
                Error,
            >((RawEventKind::SysEx { data }, 1 + sized.len() as int))
            &&& raw_kind(seq![0xF7u8] + (sized + after), running) == Ok::<
                (RawEventKind<Seq<u8>>, int),
                Error,
            >((RawEventKind::Escape { data }, 1 + sized.len() as int))
            &&& raw_kind(seq![0xFFu8, meta_type] + (sized + after), running) == Ok::<
                (RawEventKind<Seq<u8>>, int),
                Error,
            >((RawEventKind::Meta { type_byte: meta_type, data }, 2 + sized.len() as int))
        }),
{
    let eof = Error::UnexpectedEof;
    let sized = vlq_bytes(data.len() as u32) + data;
    let sysex = seq![0xF0u8] + (sized + after);
    let escape = seq![0xF7u8] + (sized + after);
    let meta = seq![0xFFu8, meta_type] + (sized + after);
    reveal(raw_kind);
    lemma_sized(data, after, eof, eof);
    assert(sysex.skip(1) =~= sized + after);
    assert(escape.skip(1) =~= sized + after);
    assert(meta.skip(2) =~= sized + after);
}

/// System messages of a track that is to be written again: one data byte behind F1 and
/// F3, two behind F2, none behind the others.
pub proof fn lemma_raw_system(a: u8, b: u8, status: u8, after: Seq<u8>, running: Option<u8>)
    requires
        0xF4 <= status <= 0xFE,
        status != 0xF7,
    ensures
        raw_kind(seq![0xF1u8, a] + after, running) == Ok::<(RawEventKind<Seq<u8>>, int), Error>(
            (RawEventKind::Midi { status: 0xF1, data1: a, data2: None }, 2),
        ),
        raw_kind(seq![0xF3u8, a] + after, running) == Ok::<(RawEventKind<Seq<u8>>, int), Error>(
            (RawEventKind::Midi { status: 0xF3, data1: a, data2: None }, 2),
        ),
        raw_kind(seq![0xF2u8, a, b] + after, running) == Ok::<(RawEventKind<Seq<u8>>, int), Error>(
            (RawEventKind::Midi { status: 0xF2, data1: a, data2: Some(b) }, 3),
        ),
        raw_kind(seq![status] + after, running) == Ok::<(RawEventKind<Seq<u8>>, int), Error>(
            (RawEventKind::Midi { status, data1: 0, data2: None }, 1),
        ),
{
    reveal(raw_kind);
}

/// What cannot be read in place, and why.
pub proof fn lemma_errors_in_place(d: Seq<u8>, running: Option<u8>)
    ensures
        d.len() == 0 ==> event_kind(d, running) == Err::<(TrackEventKind<Seq<u8>>, int), Error>(
            Error::EventMissing,
        ),
        d.len() > 0 && d[0] < 0x80 && running is None ==> event_kind(d, running) == Err::<
            (TrackEventKind<Seq<u8>>, int),
            Error,
        >(Error::NoRunningStatus),
        d.len() > 0 && 0xF1 <= d[0] <= 0xFE && d[0] != 0xF7 ==> event_kind(d, running) == Err::<
            (TrackEventKind<Seq<u8>>, int),
            Error,
        >(Error::StatusByte),
        d.len() == 1 && d[0] == 0xFF ==> event_kind(d, running) == Err::<
            (TrackEventKind<Seq<u8>>, int),
            Error,
        >(Error::MetaCut),
        !vlq_complete(d, 0) ==> item_step(d, running).item is Err && item_step(d, running).rest.len()
            == 0,
        event_kind(d, running) is Ok ==> d.len() > 0 && (d[0] >= 0x80 || running is Some),
{
    reveal(event_kind);
}

/// The status that the next event may leave out: the one of a channel message stays until
/// another status byte comes; system events and meta events end it.
pub proof fn lemma_running_status(d: Seq<u8>, running: Option<u8>)
    requires
        d.len() > 0,
    ensures
        d[0] < 0x80 ==> next_running(d, running) == running && raw_running(d, running) == running,
        0x80 <= d[0] < 0xF0 ==> next_running(d, running) == Some(d[0]) && raw_running(d, running)
            == Some(d[0]),
        d[0] == 0xF0 || d[0] == 0xF7 || d[0] == 0xFF ==> next_running(d, running) is None,
        d[0] >= 0xF0 ==> raw_running(d, running) is None,
{
}

/// An event of a track that is to be written again is read behind its delta time, and the
/// reader goes on right behind it.
pub proof fn lemma_raw_event(v: u32, body: Seq<u8>, running: Option<u8>)
    requires
        v < 0x1000_0000,
        raw_kind(body, running) is Ok,
    ensures
        ({
            let step = raw_step(vlq_bytes(v) + body, running);
            let (kind, n) = raw_kind(body, running)->Ok_0;
            &&& step.item matches Some(Ok(event)) && event.delta == v && event.kind == kind
            &&& step.rest == body.skip(n)
            &&& step.running == raw_running(body, running)
        }),
{
    let d = vlq_bytes(v) + body;
    assert(d =~= Seq::<u8>::empty() + vlq_bytes(v) + body);
    lemma_vlq_round_trip(seq![], v, body);
    assert(d.skip(vlq_bytes(v).len() as int) =~= body);
}

/// The events of a track are read one after the other: the first by itself, the others
/// from where it ends.
pub proof fn lemma_events_in_turn(d: Seq<u8>, running: Option<u8>)
    ensures
        d.len() > 0 ==> items(d, running) == seq![item_step(d, running).item] + items(
            item_step(d, running).rest,
            item_step(d, running).running,
        ),
        d.len() == 0 ==> items(d, running).len() == 0,
        raw_step(d, running).item matches Some(Ok(event)) ==> raw_events(d, running) == seq![event]
            + raw_events(raw_step(d, running).rest, raw_step(d, running).running),
        !(raw_step(d, running).item matches Some(Ok(_))) ==> raw_events(d, running).len() == 0,
{
}

} // verus!
