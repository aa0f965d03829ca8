//! Data that is cut off, wrapped or broken.

use vstd::prelude::*;

use crate::bytes::{be16, be32, be32_bytes, le32, lemma_be32_round_trip, lesser, named, place_of};
use crate::bytes::{MTHD, MTRK, RIFF, RMID, UMP_CHUNK};
use crate::cue::Cue;
use crate::error::Error;
use crate::event::{MetaMessage, MidiMessage, TrackEvent, TrackEventKind};
use crate::fast_midi::{header_of, scan_body, scan_cues, track_events, track_step, tracks_from};
use crate::fast_midi::{cut_meta, ends_cut, MidiEvent};
use crate::laws::files::{mtrk, ump};
use crate::loader::{cue_of, cue_of_event, cues_of, cues_of_track};
use crate::mmap::{header_cut, parsed, prefixed, track_chunks};
use crate::overlap::{chunks_out, file_out, narrow, raw_error, track_chunk, track_content};
use crate::overlap::RawEventKind;
use crate::primitive::Timing;
use crate::riff::{data_chunk, unwrapped};
use crate::scan::{scanned, whole_tracks, Found};
use crate::smf::Header;
use crate::ump::{converted, ump_track};
use crate::vlq::{vlq_complete, vlq_len, vlq_value};

verus! {

/// A quantity that the data cuts off is what its digits so far spell, and is not
/// complete. A fourth byte ends a quantity, whatever its top bit.
pub proof fn lemma_digits_cut(a: u8, b: u8, c: u8, d: u8, after: Seq<u8>)
    requires
        a < 128,
        b < 128,
        c < 128,
        d < 128,
    ensures
        ({
            let one = seq![(128 + a) as u8];
            let two = seq![(128 + a) as u8, (128 + b) as u8];
            let three = seq![(128 + a) as u8, (128 + b) as u8, (128 + c) as u8];
            let four = seq![
                (128 + a) as u8,
                (128 + b) as u8,
                (128 + c) as u8,
                (128 + d) as u8,
            ] + after;
            &&& vlq_len(one, 0) == 1 && vlq_value(one, 0) == a && !vlq_complete(one, 0)
            &&& vlq_len(two, 0) == 2 && vlq_value(two, 0) == a * 128 + b && !vlq_complete(two, 0)
            &&& vlq_len(three, 0) == 3 && vlq_value(three, 0) == (a * 128 + b) * 128 + c
                && !vlq_complete(three, 0)
            &&& vlq_len(four, 0) == 4 && vlq_value(four, 0) == ((a * 128 + b) * 128 + c) * 128 + d
                && vlq_complete(four, 0)
            &&& vlq_len(seq![], 0) == 0 && vlq_value(seq![], 0) == 0 && !vlq_complete(seq![], 0)
            &&& vlq_complete(seq![d] + after, 0)
            &&& vlq_complete(seq![(128 + a) as u8, d] + after, 0)
            &&& vlq_complete(seq![(128 + a) as u8, (128 + b) as u8, d] + after, 0)
        }),
{
    reveal(vlq_value);
}

/// What is no note and no tempo means nothing for the notes.
pub proof fn lemma_other_cues(channel: u8, a: u8, b: u8, bend: u16)
    ensures
        cue_of(MidiEvent::ControlChange { channel, controller: a, value: b }) is Other,
        cue_of(MidiEvent::ProgramChange { channel, program: a }) is Other,
        cue_of(MidiEvent::PitchBend { channel, bend }) is Other,
        cue_of(MidiEvent::Other) is Other,
{
}

/// What an event of a parsed file means for the notes: note-on messages with a velocity
/// strike their keys, others and note-offs let them go, tempos above 0 set the tempo, and
/// nothing else counts.
pub proof fn lemma_parsed_cues(event: TrackEvent<Seq<u8>>)
    ensures
        match event.kind {
            TrackEventKind::Midi { message: MidiMessage::NoteOn { key, vel }, .. } => {
                &&& vel.value() > 0 ==> cue_of_event(event) == (Cue::Strike {
                    key,
                    velocity: vel.value(),
                })
                &&& vel.value() == 0 ==> cue_of_event(event) == (Cue::Release { key })
            },
            TrackEventKind::Midi { message: MidiMessage::NoteOff { key, .. }, .. } => cue_of_event(
                event,
            ) == (Cue::Release { key }),
            TrackEventKind::Meta(MetaMessage::Tempo(tempo)) => {
                &&& tempo.value() > 0 ==> cue_of_event(event) == (Cue::Tempo {
                    microseconds: tempo.value(),
                })
                &&& tempo.value() == 0 ==> cue_of_event(event) is Other
            },
            _ => cue_of_event(event) is Other,
        },
{
}

/// Cues keep the delta times of their events, and their order.
pub proof fn lemma_cues_keep_time(
    events: Seq<(u32, MidiEvent<Seq<u8>>)>,
    track: Seq<TrackEvent<Vec<u8>>>,
    i: int,
)
    ensures
        cues_of(events).len() == events.len(),
        0 <= i < events.len() ==> cues_of(events)[i].0 == events[i].0 && cues_of(events)[i].1
            == cue_of(events[i].1),
        cues_of_track(track).len() == track.len(),
        0 <= i < track.len() ==> cues_of_track(track)[i].0 == track[i].delta.value()
            && cues_of_track(track)[i].1 == cue_of_event(track[i]@),
{
}

/// The track reader goes from event to event until one cannot be read.
pub proof fn lemma_reader_in_turn(s: Seq<u8>, offset: int, last: Option<u8>)
    requires
        0 <= offset,
    ensures
        match track_step(s, offset, last).item {
            Some(item) => track_events(s, offset, last) == seq![item] + track_events(
                s,
                track_step(s, offset, last).offset,
                track_step(s, offset, last).status,
            ),
            None => track_events(s, offset, last).len() == 0,
        },
{
}

/// A scan ends with the data. Data without a status, and system messages other than
/// exclusive ones, mean nothing to it and take no data.
pub proof fn lemma_scan_edges(s: Seq<u8>, at: int, status: u8, last: u8)
    requires
        0 <= at,
    ensures
        at + vlq_len(s, at) >= s.len() ==> scan_cues(s, at, last).len() == 0,
        at < s.len() && (status < 0x80 || 0xF0 < status < 0xFF && status != 0xF7) ==> scan_body(
            s,
            at,
            status,
        ) == (Cue::Other, at),
        at < s.len() && status == 0xFF && at + 1 + vlq_len(s, at + 1) + vlq_value(s, at + 1) > s.len()
            ==> scan_body(s, at, status).1 == s.len(),
        at < s.len() && (status == 0xF0 || status == 0xF7) && at + vlq_len(s, at) + vlq_value(s, at)
            > s.len() ==> scan_body(s, at, status).1 == s.len(),
        at >= s.len() ==> scan_body(s, at, status) == (Cue::Other, s.len() as int),
        at < s.len() && status == 0xFF && at + 1 + vlq_len(s, at + 1) + 3 > s.len() ==> scan_body(
            s,
            at,
            status,
        ).0 is Other,
{
    reveal(scan_body);
}

/// A chunk whose data the file cuts off.
proof fn lemma_cut_chunk(before: Seq<u8>, name: Seq<u8>, size: u32, data: Seq<u8>)
    requires
        name.len() == 4,
        data.len() < size,
    ensures
        ({
            let s = before + name + be32_bytes(size) + data;
            let at = before.len() as int;
            &&& s.len() == at + 8 + data.len()
            &&& be32(s, at + 4) == size
            &&& s.subrange(at + 8, s.len() as int) == data
            &&& named(s, at, MTRK) <==> name == mtrk()
            &&& named(s, at, UMP_CHUNK) <==> name == ump()
        }),
{
    let s = before + name + be32_bytes(size) + data;
    let at = before.len() as int;
    lemma_be32_round_trip(size);
    assert(s.subrange(at + 4, at + 8) =~= be32_bytes(size));
    crate::bytes::lemma_part_numbers(s, at + 4, at + 8, 0);
    assert(s.subrange(at + 8, s.len() as int) =~= data);
    assert(s[at] == name[0] && s[at + 1] == name[1] && s[at + 2] == name[2] && s[at + 3] == name[3]);
    reveal(be32);
    if named(s, at, MTRK) {
        assert(name =~= mtrk());
    }
    if named(s, at, UMP_CHUNK) {
        assert(name =~= ump());
    }
}

/// A last track that the file cuts off is taken as far as it goes by note extraction and
/// by the rewriting of files, left out by a scan, and refused where a file is parsed in
/// place. Packets that are cut off are converted as far as they go.
pub proof fn lemma_cut_track(before: Seq<u8>, size: u32, data: Seq<u8>, count: int)
    requires
        data.len() < size,
        count > 0,
    ensures
        ({
            let at = before.len() as int;
            let s = before + mtrk() + be32_bytes(size) + data;
            let p = before + ump() + be32_bytes(size) + data;
            &&& tracks_from(s, at, count) == seq![data]
            &&& whole_tracks(s, at, count).len() == 0
            &&& track_chunks(s, at, count) == Err::<Seq<Seq<u8>>, Error>(Error::TrackCut)
            &&& chunks_out(s, at) == (track_chunk(data), raw_error(data, None))
            &&& converted(p, at) == mtrk() + be32_bytes(ump_track(data).len() as u32) + ump_track(
                data,
            )
        }),
{
    let at = before.len() as int;
    let s = before + mtrk() + be32_bytes(size) + data;
    let p = before + ump() + be32_bytes(size) + data;
    let next = at + 8 + size;
    lemma_cut_chunk(before, mtrk(), size, data);
    lemma_cut_chunk(before, ump(), size, data);
    assert(mtrk()[3] != ump()[3]);
    assert(tracks_from(s, next, count - 1) =~= seq![]);
    assert(tracks_from(s, at, count) =~= seq![data]);
    assert(chunks_out(s, next) == (Seq::<u8>::empty(), None::<Error>));
    assert(track_chunk(data) + Seq::<u8>::empty() =~= track_chunk(data));
    assert(be32_bytes(MTRK) =~= mtrk()) by {
        reveal(be32_bytes);
    }
    let end = p.len() as int;
    assert(converted(p, end) =~= seq![]);
    let chunk = mtrk() + be32_bytes(ump_track(data).len() as u32) + ump_track(data);
    assert(chunk + Seq::<u8>::empty() =~= chunk);
}

/// A track that is written again up to an error keeps what stands before the error, with
/// the length 0, and nothing is written behind it.
pub proof fn lemma_error_written(before: Seq<u8>, chunk: crate::laws::files::Chunk, after: Seq<u8>)
    requires
        chunk.valid(),
        chunk.name == mtrk(),
        raw_error(chunk.data, None) is Some,
    ensures
        track_chunk(chunk.data) == mtrk() + seq![0u8, 0, 0, 0] + track_content(chunk.data),
        chunks_out(before + (chunk.bytes() + after), before.len() as int) == (
            track_chunk(chunk.data),
            raw_error(chunk.data, None),
        ),
{
    let s = before + (chunk.bytes() + after);
    let at = before.len() as int;
    let size = chunk.data.len() as u32;
    lemma_be32_round_trip(size);
    let b = chunk.bytes();
    assert(s.subrange(at + 4, at + 8) =~= be32_bytes(size));
    crate::bytes::lemma_part_numbers(s, at + 4, at + 8, 0);
    assert(s[at] == b[0] && s[at + 1] == b[1] && s[at + 2] == b[2] && s[at + 3] == b[3]);
    assert(named(s, at, MTRK)) by {
        reveal(be32);
    }
    assert(s.subrange(at + 8, at + 8 + size) =~= chunk.data);
    assert(be32_bytes(MTRK) =~= mtrk() && be32_bytes(0) =~= seq![0u8, 0, 0, 0]) by {
        reveal(be32_bytes);
    }
}

/// Why there is no header to read.
pub proof fn lemma_header_errors(s: Seq<u8>)
    ensures
        !named(s, 0, MTHD) && !named(s, 0, RIFF) ==> header_of(s) == Err::<
            (Header, u16, u16, Seq<u8>),
            Error,
        >(Error::NotMidi),
        named(s, 0, MTHD) && s.len() < 14 ==> header_of(s) == Err::<
            (Header, u16, u16, Seq<u8>),
            Error,
        >(Error::HeaderCut),
        named(s, 0, MTHD) && s.len() >= 14 && be16(s, 8) > 2 ==> header_of(s) == Err::<
            (Header, u16, u16, Seq<u8>),
            Error,
        >(Error::SmfFormat),
        named(s, 0, MTHD) && s.len() >= 14 && be16(s, 8) <= 2 && Timing::of_division(be16(s, 12))
            is None ==> header_of(s) == Err::<(Header, u16, u16, Seq<u8>), Error>(Error::SmpteFps),
        named(s, 0, RIFF) ==> match unwrapped(s) {
            Ok(file) => named(file, 0, MTHD) ==> header_of(s) == header_of(file),
            Err(e) => header_of(s) == Err::<(Header, u16, u16, Seq<u8>), Error>(e),
        },
        s.len() < 14 ==> parsed(s) == Err::<(Header, Seq<Seq<u8>>), Error>(Error::DataTooShort),
        s.len() >= 14 && !named(s, 0, MTHD) && !named(s, 0, RIFF) ==> parsed(s) == Err::<
            (Header, Seq<Seq<u8>>),
            Error,
        >(Error::MissingHeader),
        s.len() >= 14 && named(s, 0, MTHD) && be32(s, 4) != 6 ==> parsed(s) == Err::<
            (Header, Seq<Seq<u8>>),
            Error,
        >(Error::HeaderLength),
        s.len() >= 14 && named(s, 0, MTHD) && be32(s, 4) == 6 && be16(s, 8) > 2 ==> parsed(s)
            == Err::<(Header, Seq<Seq<u8>>), Error>(Error::MidiFormat),
        s.len() < 4 ==> scanned(s) == Err::<Found, Error>(Error::FileTooShort),
        s.len() >= 4 && !named(s, 0, MTHD) && !named(s, 0, RIFF) ==> scanned(s) == Err::<
            Found,
            Error,
        >(Error::NotMidiFile),
        named(s, 0, MTHD) && s.len() < 14 ==> scanned(s) == Err::<Found, Error>(
            Error::FileHeaderCut,
        ),
        named(s, 0, MTHD) && s.len() >= 14 && be32(s, 4) < 6 ==> scanned(s) == Err::<Found, Error>(
            Error::FileHeaderShort,
        ),
        s.len() < 14 ==> file_out(s).0.len() == 0 && file_out(s).1 == Some(Error::UnexpectedEof),
        s.len() >= 14 && !named(s, 0, MTHD) ==> file_out(s).0.len() == 0 && file_out(s).1 == Some(
            Error::InputHeader,
        ),
        s.len() >= 14 && named(s, 0, MTHD) && be32(s, 4) < 6 ==> file_out(s).0.len() == 0
            && file_out(s).1 == Some(Error::InputHeaderLength),
{
    assert(named(s, 0, MTHD) ==> !named(s, 0, RIFF));
    if named(s, 0, RIFF) {
        if let Ok(file) = unwrapped(s) {
            assert(named(file, 0, MTHD) ==> !named(file, 0, RIFF));
        }
    }
}

/// Data behind a length that goes beyond the data is cut.
pub proof fn lemma_prefixed_errors(d: Seq<u8>, bad_length: Error, cut: Error)
    ensures
        !vlq_complete(d, 0) ==> prefixed(d, bad_length, cut) == Err::<(Seq<u8>, int), Error>(
            bad_length,
        ),
        vlq_complete(d, 0) && vlq_len(d, 0) + vlq_value(d, 0) > d.len() ==> prefixed(
            d,
            bad_length,
            cut,
        ) == Err::<(Seq<u8>, int), Error>(cut),
{
}

/// What stands in front of a header in RIFF data makes no difference to a scan, as long as
/// the header is the first one there and stands in the first 4096 bytes.
pub proof fn lemma_riff_scanned(before: Seq<u8>, file: Seq<u8>)
    requires
        named(before, 0, RIFF),
        named(file, 0, MTHD),
        before.len() + 4 <= 4096,
        forall|i: int| 0 <= i < before.len() ==> !#[trigger] named(before + file, i, MTHD),
    ensures
        scanned(before + file) == scanned(file),
{
    let s = before + file;
    let at = before.len() as int;
    let end = lesser(s.len() as int, 4096);
    reveal(be32);
    reveal(be16);
    assert(s[0] == before[0] && s[1] == before[1] && s[2] == before[2] && s[3] == before[3]);
    assert(named(s, 0, RIFF));
    assert(s[at] == file[0] && s[at + 1] == file[1] && s[at + 2] == file[2] && s[at + 3] == file[3]);
    assert(named(s, at, MTHD));
    crate::laws::files::lemma_first_place(s, MTHD, 0, end);
    assert(place_of(s, MTHD, 0, end) == Some(at));
    if file.len() >= 14 {
        assert(s.subrange(at, s.len() as int) =~= file);
        crate::bytes::lemma_part_numbers(s, at, s.len() as int, 4);
        crate::bytes::lemma_part_numbers(s, at, s.len() as int, 10);
        crate::bytes::lemma_part_numbers(s, at, s.len() as int, 12);
        lemma_tracks_shift(before, file, 8 + be32(file, 4), be16(file, 10) as int);
    }
}

proof fn lemma_tracks_shift(before: Seq<u8>, file: Seq<u8>, at: int, count: int)
    requires
        0 <= at,
    ensures
        whole_tracks(before + file, before.len() + at, count) == whole_tracks(file, at, count),
    decreases
        if file.len() > at {
            file.len() - at
        } else {
            0
        },
{
    let s = before + file;
    let from = before.len() as int;
    if count > 0 && at + 8 <= file.len() {
        assert(s.subrange(from, s.len() as int) =~= file);
        crate::bytes::lemma_part_numbers(s, from, s.len() as int, at);
        crate::bytes::lemma_part_numbers(s, from, s.len() as int, at + 4);
        let end = at + 8 + be32(file, at + 4);
        lemma_tracks_shift(before, file, end, count);
        lemma_tracks_shift(before, file, end, count - 1);
        if end <= file.len() {
            assert(s.subrange(from + at + 8, from + end) =~= file.subrange(at + 8, end));
        }
    }
}

/// A header chunk may be longer than six bytes: a scan and the rewriting of a file go on
/// right behind it.
pub proof fn lemma_long_header(s: Seq<u8>)
    requires
        s.len() >= 14,
        named(s, 0, MTHD),
        be32(s, 4) >= 6,
    ensures
        scanned(s) == Ok::<Found, Error>(
            Found::nothing(be16(s, 12)).with_tracks(
                whole_tracks(s, 8 + be32(s, 4), be16(s, 10) as int),
            ),
        ),
        file_out(s).0 == seq![0x4Du8, 0x54, 0x68, 0x64, 0, 0, 0, 6] + s.subrange(8, 14)
            + chunks_out(s, 8 + be32(s, 4)).0,
        file_out(s).1 == chunks_out(s, 8 + be32(s, 4)).1,
{
    assert(!named(s, 0, RIFF));
    let h = seq![0x4Du8, 0x54, 0x68, 0x64, 0, 0, 0, 6];
    assert(be32_bytes(MTHD) + be32_bytes(6) =~= h) by {
        reveal(be32_bytes);
    }
}

/// Other chunks of RIFF data are passed over, with a padding byte where their length is
/// odd, up to the one named `data`.
pub proof fn lemma_riff_chunks(s: Seq<u8>, at: int, end: int)
    requires
        0 <= at,
        at + 8 <= end <= s.len(),
    ensures
        ({
            let size = le32(s, at + 4) as int;
            let is_data = s[at] == 0x64 && s[at + 1] == 0x61 && s[at + 2] == 0x74 && s[at + 3]
                == 0x61;
            data_chunk(s, at, end) == if is_data {
                Some(s.subrange(at + 8, lesser(at + 8 + size, end)))
            } else if size % 2 == 0 {
                data_chunk(s, at + 8 + size, end)
            } else {
                data_chunk(s, at + 9 + size, end)
            }
        }),
{
    reveal(be32);
}

/// Why there is no file in RIFF data.
pub proof fn lemma_riff_errors(s: Seq<u8>)
    ensures
        s.len() < 8 || !named(s, 0, RIFF) ==> unwrapped(s) == Err::<Seq<u8>, Error>(
            Error::RiffHeader,
        ),
        s.len() >= 8 && named(s, 0, RIFF) && (s.len() < 12 || !named(s, 8, RMID)) ==> unwrapped(s)
            == Err::<Seq<u8>, Error>(Error::RiffType),
{
}

/// What stands in front of a header in RIFF data makes no difference where a file is
/// parsed in place, as long as the header is the first one there.
pub proof fn lemma_riff_parsed(before: Seq<u8>, file: Seq<u8>)
    requires
        named(before, 0, RIFF),
        named(file, 0, MTHD),
        file.len() >= 14,
        forall|i: int| 0 <= i < before.len() ==> !#[trigger] named(before + file, i, MTHD),
    ensures
        parsed(before + file) == parsed(file),
{
    let s = before + file;
    let at = before.len() as int;
    assert(named(s, 0, RIFF) && named(s, at, MTHD) && !named(file, 0, RIFF)) by {
        reveal(be32);
        assert(s[0] == before[0] && s[1] == before[1] && s[2] == before[2] && s[3] == before[3]);
        assert(s[at] == file[0] && s[at + 1] == file[1]);
        assert(s[at + 2] == file[2] && s[at + 3] == file[3]);
    }
    crate::laws::files::lemma_first_place(s, MTHD, 0, s.len() - 1);
    assert(place_of(s, MTHD, 0, s.len() - 1) == Some(at));
    assert(s.skip(at) =~= file);
}

/// A track ends cut just where the reader comes to a meta event of which only the status
/// byte is there, the last byte of the track.
pub proof fn lemma_ends_cut(s: Seq<u8>, offset: int, last: Option<u8>)
    requires
        0 <= offset,
    ensures
        match track_step(s, offset, last).item {
            Some(_) => ends_cut(s, offset, last) == ends_cut(
                s,
                track_step(s, offset, last).offset,
                track_step(s, offset, last).status,
            ),
            None => ends_cut(s, offset, last) <==> offset + vlq_len(s, offset) == s.len() - 1
                && s.last() == 0xFF,
        },
        s.len() > 0 && s.last() != 0xFF ==> !cut_meta(s, offset),
{
}

/// In RIFF data a header is cut where its length, its format or, after a length of 6 and a
/// known format, the rest of its 14 bytes is not all there. A header of which only the
/// name is there is not found.
pub proof fn lemma_header_cut(before: Seq<u8>, d: Seq<u8>)
    requires
        named(before, 0, RIFF),
        named(d, 0, MTHD),
        before.len() + d.len() >= 14,
        forall|i: int| 0 <= i < before.len() ==> !#[trigger] named(before + d, i, MTHD),
    ensures
        d.len() == 4 ==> !header_cut(before + d) && parsed(before + d) == Err::<
            (Header, Seq<Seq<u8>>),
            Error,
        >(Error::RiffWithoutMidi),
        4 < d.len() < 8 ==> header_cut(before + d),
        8 <= d.len() < 14 ==> (header_cut(before + d) <==> d[4] == 0 && d[5] == 0 && d[6] == 0
            && d[7] == 6 && (d.len() < 10 || (d[8] == 0 && d[9] <= 2))),
        d.len() >= 14 ==> !header_cut(before + d),
{
    let s = before + d;
    let at = before.len() as int;
    assert(named(s, 0, RIFF) && named(s, at, MTHD)) by {
        reveal(be32);
        assert(s[0] == before[0] && s[1] == before[1] && s[2] == before[2] && s[3] == before[3]);
        assert(s[at] == d[0] && s[at + 1] == d[1] && s[at + 2] == d[2] && s[at + 3] == d[3]);
    }
    crate::laws::files::lemma_first_place(s, MTHD, 0, s.len() - 1);
    if d.len() > 4 {
        assert(place_of(s, MTHD, 0, s.len() - 1) == Some(at));
        assert(s.skip(at) =~= d);
        reveal(be32);
        reveal(be16);
    } else {
        assert(place_of(s, MTHD, 0, s.len() - 1) is None);
    }
}

/// A file that does not start with RIFF is never cut in its header: with fewer than 14
/// bytes it is too short.
pub proof fn lemma_header_not_cut(s: Seq<u8>)
    ensures
        !named(s, 0, RIFF) ==> !header_cut(s),
{
}

/// The keys that the rewriting of a track looks at are those of note messages with
/// velocity 0 or above 10, and of note-offs.
pub proof fn lemma_narrow(status: u8, data1: u8, data2: Option<u8>, data: Seq<u8>, type_byte: u8)
    ensures
        ({
            let velocity = match data2 {
                Some(v) => v,
                None => 0,
            };
            let looked_at = 0x80 <= status <= 0x8F || (0x90 <= status <= 0x9F && (velocity == 0
                || velocity > 10));
            narrow(RawEventKind::Midi { status, data1, data2 }) <==> !looked_at || data1 < 128
        }),
        narrow(RawEventKind::SysEx { data }),
        narrow(RawEventKind::Escape { data }),
        narrow(RawEventKind::Meta { type_byte, data }),
{
}

} // verus!
