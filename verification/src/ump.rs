//! Universal MIDI packets.
//!
//! A file may hold its tracks as chunks of packets in place of track chunks.
//! [`preprocess_smf`] turns each such chunk into a track chunk. The packets are
//!
//! - type 0x0, utility messages, of which subtype 1 gives the ticks to the next event,
//! - type 0x2, MIDI 1.0 channel messages, with data bytes of eight bits,
//! - type 0x4, MIDI 2.0 channel messages in two words, of which notes are taken:
//!   the note number is held at 255, and of the velocity the high byte is taken,
//!   held at 127.

use std::borrow::Cow;

use vstd::prelude::*;

use crate::bytes::{be32, be32_bytes, lesser, named};
use crate::bytes::{lemma_be32_round_trip, lemma_part_numbers};
use crate::bytes::{clip, is_named, push_be32, push_range, read_be32, MTHD, MTRK, RIFF, UMP_CHUNK};
use crate::cue::Cue;
use crate::error::Error;
use crate::fast_midi::{channel_event, scan_body, scan_cues, track_events, track_step, MidiEvent};
use crate::fast_midi::{header_of, tracks_from};
use crate::loader::tracks_of;
use crate::smf::Header;
use crate::vlq::{lemma_vlq_bytes_len, lemma_vlq_round_trip, vlq_bytes, vlq_len, vlq_value};
pub use crate::vlq::write_vlq;

verus! {

/// A channel message that a packet stands for.
pub struct UmpEvent {
    pub delta: u32,
    pub status: u8,
    pub data1: u8,
    pub data2: Option<u8>,
}

/// The messages of the packets from `offset` on; `delta` ticks have passed since
/// the last one.
pub open spec fn ump_events(s: Seq<u8>, offset: int, delta: u32) -> Seq<UmpEvent>
    decreases
        if s.len() > offset {
            s.len() - offset
        } else {
            0
        },
{
    if offset < 0 || offset + 4 > s.len() {
        seq![]
    } else {
        let word = be32(s, offset);
        let kind = word / 0x1000_0000;
        let nibble = word / 0x10_0000 % 16;
        let status = (nibble * 16 + word / 0x100_0000 % 16) as u8;
        if kind == 0 {
            ump_events(
                s,
                offset + 4,
                if nibble == 1 {
                    word % 0x10_0000
                } else {
                    delta
                },
            )
        } else if kind == 2 {
            if 0x8 <= nibble <= 0xE {
                let event = UmpEvent {
                    delta,
                    status,
                    data1: (word / 0x100 % 0x100) as u8,
                    data2: if nibble == 0xC || nibble == 0xD {
                        None
                    } else {
                        Some((word % 0x100) as u8)
                    },
                };
                seq![event] + ump_events(s, offset + 4, 0)
            } else {
                ump_events(s, offset + 4, delta)
            }
        } else if kind == 4 {
            if offset + 8 > s.len() {
                seq![]
            } else if nibble == 0x8 || nibble == 0x9 {
                let event = UmpEvent {
                    delta,
                    status,
                    data1: lesser((word % 0x1_0000) as int, 255) as u8,
                    data2: Some(lesser((be32(s, offset + 4) / 0x100_0000) as int, 127) as u8),
                };
                seq![event] + ump_events(s, offset + 8, 0)
            } else {
                ump_events(s, offset + 8, delta)
            }
        } else if kind == 5 {
            ump_events(s, offset + 8, delta)
        } else {
            ump_events(s, offset + 4, delta)
        }
    }
}

/// Whether a message behind one with status `last` can do without its status: it
/// has the same one, and its first data byte cannot be taken for a status byte.
pub open spec fn leaves_out_status(event: UmpEvent, last: Option<u8>) -> bool {
    last == Some(event.status) && event.data1 < 0x80
}

/// The bytes of a message behind one with status `last`: the delta time, the
/// status where it cannot be left out, and the data.
pub open spec fn event_bytes(event: UmpEvent, last: Option<u8>) -> Seq<u8> {
    vlq_bytes(event.delta) + (if leaves_out_status(event, last) {
        seq![]
    } else {
        seq![event.status]
    }) + seq![event.data1] + (match event.data2 {
        Some(d) => seq![d],
        None => seq![],
    })
}

/// The bytes of messages as track data.
pub open spec fn encoded(events: Seq<UmpEvent>, last: Option<u8>) -> Seq<u8>
    decreases events.len(),
{
    if events.len() == 0 {
        seq![]
    } else {
        event_bytes(events[0], last) + encoded(events.drop_first(), Some(events[0].status))
    }
}

/// The track data that a chunk of packets stands for.
pub open spec fn ump_track(s: Seq<u8>) -> Seq<u8> {
    encoded(ump_events(s, 0, 0), None)
}

/// Appends a message.
fn push_event(
    out: &mut Vec<u8>,
    last: &mut Option<u8>,
    delta: u32,
    status: u8,
    data1: u8,
    data2: Option<u8>,
)
    ensures
        final(out)@ == old(out)@ + event_bytes(UmpEvent { delta, status, data1, data2 }, *old(last)),
        *final(last) == Some(status),
{
    write_vlq(out, delta);
    let known: bool = match *last {
        Some(s) => s == status,
        None => false,
    };
    if !known || data1 >= 0x80 {
        out.push(status);
    }
    *last = Some(status);
    out.push(data1);
    if let Some(d) = data2 {
        out.push(d);
    }
    assert(out@ =~= old(out)@ + event_bytes(
        UmpEvent { delta, status, data1, data2 },
        *old(last),
    ));
}

/// Converts the data of a chunk of packets to track data.
pub fn convert_ump_chunk_to_mtrk(ump_data: &[u8]) -> (r: Vec<u8>)
    ensures
        r@ == ump_track(ump_data@),
        r@.len() <= ump_data@.len(),
{
    let mut mtrk: Vec<u8> = Vec::new();
    let len: usize = ump_data.len();
    let mut delta: u32 = 0;
    let mut last_status: Option<u8> = None;
    let mut offset: usize = 0;
    assert(mtrk@ + ump_track(ump_data@) =~= ump_track(ump_data@));
    while offset <= len && len - offset >= 4
        invariant
            len == ump_data@.len(),
            ump_track(ump_data@) == mtrk@ + encoded(
                ump_events(ump_data@, offset as int, delta),
                last_status,
            ),
        ensures
            ump_track(ump_data@) == mtrk@,
        decreases len + 8 - offset,
    {
        let ghost before = ump_events(ump_data@, offset as int, delta);
        let ghost written = mtrk@;
        let ghost last = last_status;
        let word: u32 = read_be32(ump_data, offset);
        let kind: u32 = word / 0x1000_0000;
        let nibble: u32 = word / 0x10_0000 % 16;
        let status: u8 = (nibble * 16 + word / 0x100_0000 % 16) as u8;
        if kind == 0x0 {
            if nibble == 1 {
                delta = word % 0x10_0000;
            }
            offset += 4;
        } else if kind == 0x2 {
            if nibble >= 0x8 && nibble <= 0xE {
                let data1: u8 = (word / 0x100 % 0x100) as u8;
                let data2: Option<u8> = if nibble == 0xC || nibble == 0xD {
                    None
                } else {
                    Some((word % 0x100) as u8)
                };
                push_event(&mut mtrk, &mut last_status, delta, status, data1, data2);
                proof {
                    let rest = ump_events(ump_data@, offset + 4, 0);
                    lemma_encoded_first(
                        UmpEvent { delta, status, data1, data2 },
                        rest,
                        last,
                        written,
                    );
                }
                delta = 0;
            }
            offset += 4;
        } else if kind == 0x4 {
            if len - offset < 8 {
                assert(before =~= seq![]);
                break;
            }
            if nibble == 0x8 || nibble == 0x9 {
                let number: u32 = word % 0x1_0000;
                let key: u8 = if number > 255 {
                    255
                } else {
                    number as u8
                };
                let high: u32 = read_be32(ump_data, offset + 4) / 0x100_0000;
                let velocity: u8 = if high > 127 {
                    127
                } else {
                    high as u8
                };
                push_event(&mut mtrk, &mut last_status, delta, status, key, Some(velocity));
                proof {
                    let rest = ump_events(ump_data@, offset + 8, 0);
                    lemma_encoded_first(
                        UmpEvent { delta, status, data1: key, data2: Some(velocity) },
                        rest,
                        last,
                        written,
                    );
                }
                delta = 0;
            }
            offset += 8;
        } else if kind == 0x5 {
            if len - offset < 8 {
                assert(ump_events(ump_data@, offset + 8, delta) =~= seq![]);
                break;
            }
            offset += 8;
        } else {
            offset += 4;
        }
    }
    proof {
        lemma_converted_no_longer(ump_data@);
    }
    mtrk
}

/// The messages from `offset` on take no more bytes than their packets, but for
/// those of a delta time that was announced before.
proof fn lemma_encoded_len(s: Seq<u8>, offset: int, delta: u32, last: Option<u8>)
    requires
        0 <= offset,
        delta < 0x10_0000,
    ensures
        encoded(ump_events(s, offset, delta), last).len() < vlq_bytes(delta).len() + (if s.len()
            > offset {
            s.len() - offset
        } else {
            0
        }),
    decreases
        if s.len() > offset {
            s.len() - offset
        } else {
            0
        },
{
    lemma_vlq_bytes_len(delta);
    lemma_vlq_bytes_len(0);
    if offset + 4 <= s.len() {
        let word = be32(s, offset);
        let kind = word / 0x1000_0000;
        let nibble = word / 0x10_0000 % 16;
        let events = ump_events(s, offset, delta);
        if kind == 0 {
            lemma_vlq_bytes_len(word % 0x10_0000);
            lemma_encoded_len(s, offset + 4, delta, last);
            lemma_encoded_len(s, offset + 4, word % 0x10_0000, last);
        } else if kind == 2 && 0x8 <= nibble <= 0xE {
            let event = events[0];
            let rest = ump_events(s, offset + 4, 0);
            lemma_encoded_first(event, rest, last, seq![]);
            lemma_encoded_len(s, offset + 4, 0, Some(event.status));
            assert(events == seq![event] + rest);
            assert(event_bytes(event, last).len() <= vlq_bytes(delta).len() + 3);
            assert(encoded(events, last).len() == event_bytes(event, last).len() + encoded(
                rest,
                Some(event.status),
            ).len());
        } else if kind == 4 && (nibble == 0x8 || nibble == 0x9) && offset + 8 <= s.len() {
            let event = events[0];
            let rest = ump_events(s, offset + 8, 0);
            lemma_encoded_first(event, rest, last, seq![]);
            lemma_encoded_len(s, offset + 8, 0, Some(event.status));
            assert(events == seq![event] + rest);
            assert(event_bytes(event, last).len() <= vlq_bytes(delta).len() + 3);
            assert(encoded(events, last).len() == event_bytes(event, last).len() + encoded(
                rest,
                Some(event.status),
            ).len());
        } else if kind == 4 || kind == 5 {
            lemma_encoded_len(s, offset + 8, delta, last);
        } else {
            lemma_encoded_len(s, offset + 4, delta, last);
        }
    }
}

/// Track data is no longer than the packets that it was converted from.
pub proof fn lemma_converted_no_longer(s: Seq<u8>)
    ensures
        ump_track(s).len() <= s.len(),
{
    lemma_vlq_bytes_len(0);
    lemma_encoded_len(s, 0, 0, None);
}

/// A first message is written in front of the others.
proof fn lemma_encoded_first(
    event: UmpEvent,
    rest: Seq<UmpEvent>,
    last: Option<u8>,
    written: Seq<u8>,
)
    ensures
        written + encoded(seq![event] + rest, last) == (written + event_bytes(event, last)) + encoded(
            rest,
            Some(event.status),
        ),
{
    let events = seq![event] + rest;
    assert(events.drop_first() =~= rest);
    assert(events[0] == event);
    assert(written + encoded(events, last) =~= (written + event_bytes(event, last)) + encoded(
        rest,
        Some(event.status),
    ));
}

/// Where the chunk at `offset` ends, inside the file.
pub open spec fn chunk_stop(s: Seq<u8>, offset: int) -> int {
    lesser(offset + 8 + be32(s, offset + 4), s.len() as int)
}

/// The chunks from `offset` on: names and data.
pub open spec fn chunk_list(s: Seq<u8>, offset: int) -> Seq<(u32, Seq<u8>)>
    decreases s.len() - offset,
{
    if offset < 0 || offset + 8 > s.len() {
        seq![]
    } else {
        let stop = chunk_stop(s, offset);
        seq![(be32(s, offset), s.subrange(offset + 8, stop))] + chunk_list(s, stop)
    }
}

/// Whether one of the chunks holds packets.
pub open spec fn any_ump(chunks: Seq<(u32, Seq<u8>)>) -> bool {
    exists|i: int| 0 <= i < chunks.len() && (#[trigger] chunks[i]).0 == UMP_CHUNK
}

/// The bytes from `offset` on with every chunk of packets turned into a track chunk.
pub open spec fn converted(s: Seq<u8>, offset: int) -> Seq<u8>
    decreases s.len() - offset,
{
    if offset < 0 || offset + 8 > s.len() {
        s.skip(offset)
    } else {
        let stop = chunk_stop(s, offset);
        let track = ump_track(s.subrange(offset + 8, stop));
        let chunk = if named(s, offset, UMP_CHUNK) {
            be32_bytes(MTRK) + be32_bytes(track.len() as u32) + track
        } else {
            s.subrange(offset, stop)
        };
        chunk + converted(s, stop)
    }
}

/// The file with every chunk of packets behind its header turned into a track chunk.
pub open spec fn preprocessed(s: Seq<u8>) -> Seq<u8> {
    if s.len() < 14 || !any_ump(chunk_list(s, 14)) {
        s
    } else {
        s.take(14) + converted(s, 14)
    }
}

proof fn lemma_any_first(chunk: (u32, Seq<u8>), rest: Seq<(u32, Seq<u8>)>)
    ensures
        any_ump(seq![chunk] + rest) == (chunk.0 == UMP_CHUNK || any_ump(rest)),
{
    let all = seq![chunk] + rest;
    if chunk.0 == UMP_CHUNK {
        assert(all[0].0 == UMP_CHUNK);
    }
    if any_ump(rest) {
        let i = choose|i: int| 0 <= i < rest.len() && (#[trigger] rest[i]).0 == UMP_CHUNK;
        assert(all[i + 1].0 == UMP_CHUNK);
    }
    if any_ump(all) && chunk.0 != UMP_CHUNK {
        let i = choose|i: int| 0 <= i < all.len() && (#[trigger] all[i]).0 == UMP_CHUNK;
        assert(rest[i - 1].0 == UMP_CHUNK);
    }
}

/// Whether the file has chunks of packets behind its header.
pub fn has_ump_chunks(raw: &[u8]) -> (r: bool)
    ensures
        r == any_ump(chunk_list(raw@, 14)),
{
    let len: usize = raw.len();
    let mut offset: usize = 14;
    while offset <= len && len - offset >= 8
        invariant
            len == raw@.len(),
            any_ump(chunk_list(raw@, 14)) == any_ump(chunk_list(raw@, offset as int)),
        decreases len + 14 - offset,
    {
        let chunk_len: u32 = read_be32(raw, offset + 4);
        let stop: usize = clip(offset + 8, chunk_len, len);
        proof {
            lemma_any_first(
                (be32(raw@, offset as int), raw@.subrange(offset + 8, stop as int)),
                chunk_list(raw@, stop as int),
            );
        }
        if is_named(raw, offset, UMP_CHUNK) {
            return true;
        }
        offset = stop;
    }
    false
}

/// Turns the chunks of packets of a file into track chunks.
///
/// A file without such chunks is handed back as it is.
pub fn preprocess_smf<'a>(raw: &'a [u8]) -> (r: Cow<'a, [u8]>)
    ensures
        if raw@.len() < 14 || !any_ump(chunk_list(raw@, 14)) {
            r == Cow::<'a, [u8]>::Borrowed(raw)
        } else {
            r matches Cow::Owned(v) && v@ == preprocessed(raw@)
        },
{
    let len: usize = raw.len();
    if len < 14 || !has_ump_chunks(raw) {
        return Cow::Borrowed(raw);
    }
    let mut result: Vec<u8> = Vec::with_capacity(len);
    push_range(&mut result, raw, 0, 14);
    let mut offset: usize = 14;
    assert(result@ + converted(raw@, 14) =~= preprocessed(raw@));
    while len - offset >= 8
        invariant
            len == raw@.len(),
            14 <= offset <= len,
            result@ + converted(raw@, offset as int) == preprocessed(raw@),
        decreases len - offset,
    {
        let ghost before = result@;
        let chunk_len: u32 = read_be32(raw, offset + 4);
        let stop: usize = clip(offset + 8, chunk_len, len);
        let ghost chunk = if named(raw@, offset as int, UMP_CHUNK) {
            let track = ump_track(raw@.subrange(offset + 8, stop as int));
            be32_bytes(MTRK) + be32_bytes(track.len() as u32) + track
        } else {
            raw@.subrange(offset as int, stop as int)
        };
        if is_named(raw, offset, UMP_CHUNK) {
            let mtrk = convert_ump_chunk_to_mtrk(&raw[offset + 8..stop]);
            push_be32(&mut result, MTRK);
            push_be32(&mut result, mtrk.len() as u32);
            push_range(&mut result, mtrk.as_slice(), 0, mtrk.len());
            assert(mtrk@.subrange(0, mtrk@.len() as int) =~= mtrk@);
        } else {
            push_range(&mut result, raw, offset, stop);
        }
        assert(result@ =~= before + chunk);
        assert(result@ + converted(raw@, stop as int) =~= before + (chunk + converted(
            raw@,
            stop as int,
        )));
        offset = stop;
    }
    push_range(&mut result, raw, offset, len);
    assert(raw@.subrange(offset as int, len as int) =~= raw@.skip(offset as int));
    Cow::Owned(result)
}

/// The chunks with track data in place of packets.
pub open spec fn converted_list(chunks: Seq<(u32, Seq<u8>)>) -> Seq<(u32, Seq<u8>)> {
    Seq::new(
        chunks.len(),
        |i: int|
            if chunks[i].0 == UMP_CHUNK {
                (MTRK, ump_track(chunks[i].1))
            } else {
                chunks[i]
            },
    )
}

proof fn lemma_written_be32(s: Seq<u8>, at: int, v: u32)
    requires
        0 <= at,
        at + 4 <= s.len(),
        s.subrange(at, at + 4) == be32_bytes(v),
    ensures
        be32(s, at) == v,
{
    lemma_part_numbers(s, at, at + 4, 0);
    lemma_be32_round_trip(v);
}

/// A chunk that is written out in full is read back.
proof fn lemma_written_chunk(before: Seq<u8>, name: u32, data: Seq<u8>, after: Seq<u8>)
    requires
        data.len() <= u32::MAX,
    ensures
        ({
            let chunk = be32_bytes(name) + be32_bytes(data.len() as u32) + data;
            let r = before + (chunk + after);
            chunk_list(r, before.len() as int) == seq![(name, data)] + chunk_list(
                (before + chunk) + after,
                (before + chunk).len() as int,
            )
        }),
{
    let at = before.len() as int;
    let size = data.len() as u32;
    let chunk = be32_bytes(name) + be32_bytes(size) + data;
    let r = before + (chunk + after);
    lemma_be32_round_trip(name);
    lemma_be32_round_trip(size);
    assert(r =~= (before + chunk) + after);
    assert(r.subrange(at, at + 4) =~= be32_bytes(name));
    assert(r.subrange(at + 4, at + 8) =~= be32_bytes(size));
    lemma_written_be32(r, at, name);
    lemma_written_be32(r, at + 4, size);
    assert(r.subrange(at + 8, at + 8 + size) =~= data);
}

/// A chunk that is copied is read back.
proof fn lemma_copied_chunk(before: Seq<u8>, s: Seq<u8>, offset: int, after: Seq<u8>)
    requires
        0 <= offset,
        offset + 8 <= s.len(),
        chunk_stop(s, offset) == s.len() ==> after.len() == 0,
    ensures
        ({
            let stop = chunk_stop(s, offset);
            let chunk = s.subrange(offset, stop);
            let r = before + (chunk + after);
            chunk_list(r, before.len() as int) == seq![
                (be32(s, offset), s.subrange(offset + 8, stop)),
            ] + chunk_list((before + chunk) + after, (before + chunk).len() as int)
        }),
{
    let at = before.len() as int;
    let stop = chunk_stop(s, offset);
    let chunk = s.subrange(offset, stop);
    let end = at + chunk.len();
    let r = before + (chunk + after);
    assert(r =~= (before + chunk) + after);
    assert(r.subrange(at, end) =~= chunk);
    lemma_part_numbers(r, at, end, 0);
    lemma_part_numbers(r, at, end, 4);
    lemma_part_numbers(s, offset, stop, 0);
    lemma_part_numbers(s, offset, stop, 4);
    assert(chunk_stop(r, at) == end);
    assert(r.subrange(at + 8, end) =~= s.subrange(offset + 8, stop));
}

proof fn lemma_converted_chunks(s: Seq<u8>, offset: int, before: Seq<u8>)
    requires
        0 <= offset <= s.len(),
    ensures
        chunk_list(before + converted(s, offset), before.len() as int) == converted_list(
            chunk_list(s, offset),
        ),
    decreases s.len() - offset,
{
    let list = chunk_list(s, offset);
    if offset + 8 > s.len() {
        assert(chunk_list(before + converted(s, offset), before.len() as int) =~= converted_list(
            list,
        ));
    } else {
        let stop = chunk_stop(s, offset);
        let data = s.subrange(offset + 8, stop);
        let rest = chunk_list(s, stop);
        let first = (be32(s, offset), data);
        let after = converted(s, stop);
        assert(list == seq![first] + rest);
        assert(list[0] == first);
        if named(s, offset, UMP_CHUNK) {
            let track = ump_track(data);
            lemma_converted_no_longer(data);
            let chunk = be32_bytes(MTRK) + be32_bytes(track.len() as u32) + track;
            lemma_written_chunk(before, MTRK, track, after);
            lemma_converted_chunks(s, stop, before + chunk);
            assert(converted_list(list) =~= seq![(MTRK, track)] + converted_list(rest));
        } else {
            lemma_copied_chunk(before, s, offset, after);
            lemma_converted_chunks(s, stop, before + s.subrange(offset, stop));
            assert(converted_list(list) =~= seq![first] + converted_list(rest));
        }
    }
}

/// Preprocessing keeps the chunks of a file, their order and their data, but for
/// packets, which become track data.
pub proof fn lemma_preprocessed_chunks(s: Seq<u8>)
    requires
        s.len() >= 14,
    ensures
        preprocessed(s).take(14) == s.take(14),
        chunk_list(preprocessed(s), 14) == converted_list(chunk_list(s, 14)),
{
    if any_ump(chunk_list(s, 14)) {
        lemma_converted_chunks(s, 14, s.take(14));
        assert(preprocessed(s).take(14) =~= s.take(14));
    } else {
        assert(converted_list(chunk_list(s, 14)) =~= chunk_list(s, 14));
    }
}

/// A preprocessed file has no packets left, and preprocessing it again changes nothing.
pub proof fn lemma_preprocess_twice(s: Seq<u8>)
    ensures
        s.len() >= 14 ==> !any_ump(chunk_list(preprocessed(s), 14)),
        preprocessed(preprocessed(s)) == preprocessed(s),
{
    if s.len() >= 14 {
        lemma_preprocessed_chunks(s);
    }
}

/// The data of the track chunks among chunks.
pub open spec fn track_chunks(chunks: Seq<(u32, Seq<u8>)>) -> Seq<Seq<u8>>
    decreases chunks.len(),
{
    if chunks.len() == 0 {
        seq![]
    } else {
        let rest = track_chunks(chunks.drop_first());
        if chunks[0].0 == MTRK {
            seq![chunks[0].1] + rest
        } else {
            rest
        }
    }
}

/// The track data of the track chunks and of the chunks of packets among chunks.
pub open spec fn tracks_with_packets(chunks: Seq<(u32, Seq<u8>)>) -> Seq<Seq<u8>>
    decreases chunks.len(),
{
    if chunks.len() == 0 {
        seq![]
    } else {
        let rest = tracks_with_packets(chunks.drop_first());
        if chunks[0].0 == MTRK {
            seq![chunks[0].1] + rest
        } else if chunks[0].0 == UMP_CHUNK {
            seq![ump_track(chunks[0].1)] + rest
        } else {
            rest
        }
    }
}

/// The first `count` tracks.
pub open spec fn first_tracks(tracks: Seq<Seq<u8>>, count: int) -> Seq<Seq<u8>> {
    if count <= 0 {
        seq![]
    } else if tracks.len() > count {
        tracks.take(count)
    } else {
        tracks
    }
}

proof fn lemma_first_tracks(track: Seq<u8>, rest: Seq<Seq<u8>>, count: int)
    requires
        count > 0,
    ensures
        first_tracks(seq![track] + rest, count) == seq![track] + first_tracks(rest, count - 1),
{
    assert(first_tracks(seq![track] + rest, count) =~= seq![track] + first_tracks(rest, count - 1));
}

proof fn lemma_tracks_from_chunks(s: Seq<u8>, offset: int, count: int)
    requires
        0 <= offset,
    ensures
        tracks_from(s, offset, count) == first_tracks(track_chunks(chunk_list(s, offset)), count),
    decreases
        if s.len() > offset {
            s.len() - offset
        } else {
            0
        },
{
    let list = chunk_list(s, offset);
    if offset + 8 > s.len() || count <= 0 {
        assert(tracks_from(s, offset, count) =~= first_tracks(track_chunks(list), count));
    } else {
        let next = offset + 8 + be32(s, offset + 4);
        let stop = chunk_stop(s, offset);
        let first = (be32(s, offset), s.subrange(offset + 8, stop));
        let rest = chunk_list(s, stop);
        assert(list == seq![first] + rest);
        assert(list.drop_first() =~= rest);
        assert(list[0] == first);
        lemma_tracks_from_chunks(s, next, count);
        lemma_tracks_from_chunks(s, next, count - 1);
        if next > s.len() {
            assert(chunk_list(s, next) =~= rest);
        }
        if named(s, offset, MTRK) {
            lemma_first_tracks(first.1, track_chunks(rest), count);
        }
    }
}

proof fn lemma_converted_tracks(chunks: Seq<(u32, Seq<u8>)>)
    ensures
        track_chunks(converted_list(chunks)) == tracks_with_packets(chunks),
    decreases chunks.len(),
{
    if chunks.len() > 0 {
        let rest = chunks.drop_first();
        lemma_converted_tracks(rest);
        assert(converted_list(chunks).drop_first() =~= converted_list(rest));
    }
}

/// A preprocessed file has the header of the file, and its tracks, as the track
/// reader finds them, are those of the file with track data in place of packets.
pub proof fn lemma_preprocessed_tracks(s: Seq<u8>)
    requires
        named(s, 0, MTHD),
    ensures
        match header_of(s) {
            Ok((header, count, division, _)) => {
                &&& header_of(preprocessed(s)) == Ok::<(Header, u16, u16, Seq<u8>), Error>(
                    (header, count, division, preprocessed(s)),
                )
                &&& tracks_of(preprocessed(s), count) == first_tracks(
                    tracks_with_packets(chunk_list(s, 14)),
                    count as int,
                )
            },
            Err(e) => header_of(preprocessed(s)) == Err::<(Header, u16, u16, Seq<u8>), Error>(e),
        },
{
    let r = preprocessed(s);
    if s.len() >= 14 {
        lemma_preprocessed_chunks(s);
        lemma_converted_tracks(chunk_list(s, 14));
        assert(s.subrange(0, 14) =~= s.take(14));
        assert(r.subrange(0, 14) =~= r.take(14));
        lemma_part_numbers(s, 0, 14, 0);
        lemma_part_numbers(r, 0, 14, 0);
        lemma_part_numbers(s, 0, 14, 8);
        lemma_part_numbers(r, 0, 14, 8);
        lemma_part_numbers(s, 0, 14, 10);
        lemma_part_numbers(r, 0, 14, 10);
        lemma_part_numbers(s, 0, 14, 12);
        lemma_part_numbers(r, 0, 14, 12);
        assert(!named(s, 0, RIFF) && !named(r, 0, RIFF));
        if let Ok((_, count, _, _)) = header_of(s) {
            lemma_tracks_from_chunks(r, 14, count as int);
        }
    }
}

/// What a track reader makes of the messages.
pub open spec fn as_events(events: Seq<UmpEvent>) -> Seq<(u32, MidiEvent<Seq<u8>>)> {
    Seq::new(
        events.len(),
        |i: int|
            (
                events[i].delta,
                channel_event(
                    events[i].status,
                    events[i].data1,
                    match events[i].data2 {
                        Some(d) => d,
                        None => 0,
                    },
                ),
            ),
    )
}

/// What a scan makes of a message.
pub open spec fn message_cue(event: UmpEvent) -> Cue {
    let kind = event.status / 16;
    let key = event.data1;
    match event.data2 {
        Some(velocity) if kind == 0x9 && velocity > 0 => Cue::Strike { key, velocity },
        _ => if kind == 0x8 || kind == 0x9 {
            Cue::Release { key }
        } else {
            Cue::Other
        },
    }
}

/// What a scan makes of the messages.
pub open spec fn as_cues(events: Seq<UmpEvent>) -> Seq<(u32, Cue)> {
    Seq::new(events.len(), |i: int| (events[i].delta, message_cue(events[i])))
}

/// Whether a message has a status, a delta time and data as packets give them.
spec fn proper(event: UmpEvent) -> bool {
    &&& event.delta < 0x10_0000
    &&& 0x80 <= event.status < 0xF0
    &&& event.data2 is None <==> (event.status / 16 == 0xC || event.status / 16 == 0xD)
}

spec fn all_proper(events: Seq<UmpEvent>) -> bool {
    forall|i: int| 0 <= i < events.len() ==> proper(#[trigger] events[i])
}

proof fn lemma_first_proper(event: UmpEvent, rest: Seq<UmpEvent>)
    requires
        proper(event),
        all_proper(rest),
    ensures
        all_proper(seq![event] + rest),
{
}

proof fn lemma_events_proper(s: Seq<u8>, offset: int, delta: u32)
    requires
        delta < 0x10_0000,
    ensures
        all_proper(ump_events(s, offset, delta)),
    decreases
        if s.len() > offset {
            s.len() - offset
        } else {
            0
        },
{
    if 0 <= offset && offset + 4 <= s.len() {
        let word = be32(s, offset);
        let kind = word / 0x1000_0000;
        let nibble = word / 0x10_0000 % 16;
        let all = ump_events(s, offset, delta);
        if kind == 0 {
            lemma_events_proper(s, offset + 4, delta);
            lemma_events_proper(s, offset + 4, word % 0x10_0000);
        } else if kind == 2 && 0x8 <= nibble <= 0xE {
            let rest = ump_events(s, offset + 4, 0);
            lemma_events_proper(s, offset + 4, 0);
            assert(all[0].status / 16 == nibble);
            lemma_first_proper(all[0], rest);
            assert(all =~= seq![all[0]] + rest);
        } else if kind == 4 && (nibble == 0x8 || nibble == 0x9) {
            if offset + 8 <= s.len() {
                let rest = ump_events(s, offset + 8, 0);
                lemma_events_proper(s, offset + 8, 0);
                assert(all[0].status / 16 == nibble);
                lemma_first_proper(all[0], rest);
                assert(all =~= seq![all[0]] + rest);
            }
        } else if kind == 4 || kind == 5 {
            lemma_events_proper(s, offset + 8, delta);
        } else {
            lemma_events_proper(s, offset + 4, delta);
        }
    }
}

/// Where the parts of a written message stand.
proof fn lemma_event_parts(before: Seq<u8>, event: UmpEvent, last: Option<u8>, after: Seq<u8>)
    requires
        proper(event),
    ensures
        ({
            let s = before + (event_bytes(event, last) + after);
            let at = before.len() + vlq_bytes(event.delta).len();
            let explicit = if leaves_out_status(event, last) {
                0int
            } else {
                1
            };
            let end = before.len() + event_bytes(event, last).len();
            &&& vlq_len(s, before.len() as int) == vlq_bytes(event.delta).len()
            &&& vlq_value(s, before.len() as int) == event.delta
            &&& end == at + explicit + (if event.data2 is Some {
                2int
            } else {
                1
            })
            &&& end <= s.len()
            &&& explicit == 1 ==> s[at as int] == event.status
            &&& s[at + explicit] == event.data1
            &&& event.data2 matches Some(d) ==> s[at + explicit + 1] == d
        }),
{
    let delta = vlq_bytes(event.delta);
    let bytes = event_bytes(event, last);
    let s = before + (bytes + after);
    let at = before.len() + delta.len();
    let explicit = if leaves_out_status(event, last) {
        0int
    } else {
        1
    };
    let tail = bytes.skip(delta.len() as int) + after;
    assert(s =~= before + delta + tail);
    lemma_vlq_round_trip(before, event.delta, tail);
    assert forall|i: int| 0 <= i < bytes.len() implies s[before.len() + i] == bytes[i] by {}
    let n = delta.len() as int;
    if explicit == 1 {
        assert(bytes[n] == event.status);
        assert(s[before.len() + n] == bytes[n]);
    }
    assert(bytes[n + explicit] == event.data1);
    assert(s[before.len() + (n + explicit)] == bytes[n + explicit]);
    if let Some(d) = event.data2 {
        assert(bytes[n + explicit + 1] == d);
        assert(s[before.len() + (n + explicit + 1)] == bytes[n + explicit + 1]);
    }
}

proof fn lemma_read_back(before: Seq<u8>, events: Seq<UmpEvent>, last: Option<u8>)
    requires
        all_proper(events),
    ensures
        track_events(before + encoded(events, last), before.len() as int, last) == as_events(events),
    decreases events.len(),
{
    let s = before + encoded(events, last);
    let start = before.len() as int;
    if events.len() == 0 {
        assert(track_step(s, start, last).item is None) by {
            reveal(track_step);
        }
        assert(track_events(s, start, last) =~= as_events(events));
    } else {
        let event = events[0];
        let rest = events.drop_first();
        let bytes = event_bytes(event, last);
        let after = encoded(rest, Some(event.status));
        assert(proper(event));
        lemma_event_parts(before, event, last, after);
        assert forall|i: int| 0 <= i < rest.len() implies proper(#[trigger] rest[i]) by {
            assert(rest[i] == events[i + 1]);
        }
        lemma_read_back(before + bytes, rest, Some(event.status));
        assert((before + bytes) + after =~= s);
        let step = track_step(s, start, last);
        assert(step.offset == (before + bytes).len() && step.status == Some(event.status)
            && step.item == Some(as_events(events)[0])) by {
            reveal(track_step);
        }
        assert(as_events(events) =~= seq![as_events(events)[0]] + as_events(rest));
    }
}

/// A track reader gets back the messages of converted packets.
pub proof fn lemma_converted_reads_back(s: Seq<u8>)
    ensures
        track_events(ump_track(s), 0, None) == as_events(ump_events(s, 0, 0)),
{
    lemma_events_proper(s, 0, 0);
    lemma_read_back(seq![], ump_events(s, 0, 0), None);
    assert(Seq::<u8>::empty() + ump_track(s) =~= ump_track(s));
}

/// A scan takes the data of a message for what it is.
proof fn lemma_scan_message(s: Seq<u8>, at: int, event: UmpEvent)
    requires
        proper(event),
        0 <= at < s.len(),
        s[at] == event.data1,
        event.data2 matches Some(d) ==> at + 1 < s.len() && s[at + 1] == d,
    ensures
        scan_body(s, at, event.status) == (
            message_cue(event),
            at + (if event.data2 is Some {
                2int
            } else {
                1
            }),
        ),
{
    reveal(scan_body);
}

proof fn lemma_scan_back(before: Seq<u8>, events: Seq<UmpEvent>, last: Option<u8>)
    requires
        all_proper(events),
        last matches Some(status) ==> 0x80 <= status < 0xF0,
    ensures
        scan_cues(
            before + encoded(events, last),
            before.len() as int,
            match last {
                Some(status) => status,
                None => 0,
            },
        ) == as_cues(events),
    decreases events.len(),
{
    let s = before + encoded(events, last);
    let start = before.len() as int;
    let known = match last {
        Some(status) => status,
        None => 0,
    };
    if events.len() == 0 {
        assert(scan_cues(s, start, known) =~= as_cues(events));
    } else {
        let event = events[0];
        let rest = events.drop_first();
        let bytes = event_bytes(event, last);
        let after = encoded(rest, Some(event.status));
        let end = (before + bytes).len() as int;
        assert(proper(event));
        lemma_event_parts(before, event, last, after);
        assert(all_proper(rest)) by {
            assert forall|i: int| 0 <= i < rest.len() implies proper(#[trigger] rest[i]) by {
                assert(rest[i] == events[i + 1]);
            }
        }
        lemma_scan_back(before + bytes, rest, Some(event.status));
        assert((before + bytes) + after =~= s);
        let at = start + vlq_bytes(event.delta).len();
        let data = if leaves_out_status(event, last) {
            at
        } else {
            at + 1
        };
        lemma_scan_message(s, data, event);
        lemma_scan_first(s, start, known, event, data, end);
        assert(as_cues(events) =~= seq![(event.delta, message_cue(event))] + as_cues(rest));
    }
}

/// The first cue of a scan, from where its parts stand.
proof fn lemma_scan_first(
    s: Seq<u8>,
    start: int,
    known: u8,
    event: UmpEvent,
    data: int,
    end: int,
)
    requires
        0 <= start,
        vlq_value(s, start) == event.delta,
        0x80 <= event.status < 0xF0,
        data < s.len(),
        scan_body(s, data, event.status) == (message_cue(event), end),
        ({
            let at = start + vlq_len(s, start);
            ||| data == at && s[at] < 0x80 && known == event.status
            ||| data == at + 1 && s[at] == event.status
        }),
    ensures
        scan_cues(s, start, known) == seq![(event.delta, message_cue(event))] + scan_cues(
            s,
            end,
            event.status,
        ),
{
}

/// A scan finds the notes of converted packets.
pub proof fn lemma_converted_scans_back(s: Seq<u8>)
    ensures
        scan_cues(ump_track(s), 0, 0) == as_cues(ump_events(s, 0, 0)),
{
    lemma_events_proper(s, 0, 0);
    lemma_scan_back(seq![], ump_events(s, 0, 0), None);
    assert(Seq::<u8>::empty() + ump_track(s) =~= ump_track(s));
}

} // verus!
