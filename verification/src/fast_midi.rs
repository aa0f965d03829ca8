//! Reading the bytes of a track event by event, without building up a list.

use vstd::prelude::*;

use crate::bytes::{clip, is_named, read_be16, read_be24, read_be32, read_or_zero, MTHD, MTRK, RIFF};
use crate::bytes::{be16, be24, be32, byte_or_zero, lesser, named};
use crate::cue::{lemma_first_cue, last_tick, later, strikes, tempos, Cue};
use crate::error::Error;
use crate::primitive::{Format, Timing};
use crate::riff;
use crate::smf::Header;
use crate::vlq::{read_vlq_at, vlq_len, vlq_value};

verus! {

/// An event of a track, as far as note extraction and playback need it.
#[derive(Clone, Copy, Debug, PartialEq, Eq)]
pub enum MidiEvent<B> {
    NoteOn { channel: u8, key: u8, velocity: u8 },
    NoteOff { channel: u8, key: u8, velocity: u8 },
    ControlChange { channel: u8, controller: u8, value: u8 },
    ProgramChange { channel: u8, program: u8 },
    PitchBend { channel: u8, bend: u16 },
    Meta { event_type: u8, data: B },
    Other,
}

impl<B: View<V = Seq<u8>>> View for MidiEvent<B> {
    type V = MidiEvent<Seq<u8>>;

    open spec fn view(&self) -> MidiEvent<Seq<u8>> {
        match *self {
            MidiEvent::NoteOn { channel, key, velocity } => MidiEvent::NoteOn {
                channel,
                key,
                velocity,
            },
            MidiEvent::NoteOff { channel, key, velocity } => MidiEvent::NoteOff {
                channel,
                key,
                velocity,
            },
            MidiEvent::ControlChange { channel, controller, value } => MidiEvent::ControlChange {
                channel,
                controller,
                value,
            },
            MidiEvent::ProgramChange { channel, program } => MidiEvent::ProgramChange {
                channel,
                program,
            },
            MidiEvent::PitchBend { channel, bend } => MidiEvent::PitchBend { channel, bend },
            MidiEvent::Meta { event_type, data } => MidiEvent::Meta { event_type, data: data@ },
            MidiEvent::Other => MidiEvent::Other,
        }
    }
}

/// Where a reader stands after a step, and the event that it got.
pub struct TrackStep {
    pub offset: int,
    pub status: Option<u8>,
    pub item: Option<(u32, MidiEvent<Seq<u8>>)>,
}

/// The event that a channel status with two data bytes makes.
pub open spec fn channel_event(status: u8, d1: u8, d2: u8) -> MidiEvent<Seq<u8>> {
    let channel = status % 16;
    let kind = status / 16;
    if kind == 0x8 {
        MidiEvent::NoteOff { channel, key: d1, velocity: d2 }
    } else if kind == 0x9 {
        if d2 == 0 {
            MidiEvent::NoteOff { channel, key: d1, velocity: 0 }
        } else {
            MidiEvent::NoteOn { channel, key: d1, velocity: d2 }
        }
    } else if kind == 0xB {
        MidiEvent::ControlChange { channel, controller: d1, value: d2 }
    } else if kind == 0xC {
        MidiEvent::ProgramChange { channel, program: d1 }
    } else if kind == 0xE {
        MidiEvent::PitchBend { channel, bend: ((d2 as u16) << 7u16) | (d1 as u16) }
    } else {
        MidiEvent::Other
    }
}

/// How many data bytes the reader takes for a channel status.
pub open spec fn channel_len(status: u8) -> int {
    if status / 16 == 0xC || status / 16 == 0xD {
        1
    } else {
        2
    }
}

/// The step over the data bytes at `at` of a channel message.
pub open spec fn channel_step(s: Seq<u8>, at: int, delta: u32, status: u8) -> TrackStep {
    TrackStep {
        offset: lesser(at + channel_len(status), s.len() as int),
        status: Some(status),
        item: Some(
            (delta, channel_event(status, byte_or_zero(s, at), byte_or_zero(s, at + 1))),
        ),
    }
}

/// The step over what follows a status byte from 0xF0 on; `at` is behind that byte.
pub open spec fn system_step(
    s: Seq<u8>,
    at: int,
    delta: u32,
    status: u8,
    last: Option<u8>,
) -> TrackStep {
    let len = s.len() as int;
    if status == 0xFF {
        if at >= len {
            TrackStep { offset: len, status: last, item: None }
        } else {
            let start = at + 1 + vlq_len(s, at + 1);
            let end = lesser(start + vlq_value(s, at + 1), len);
            TrackStep {
                offset: end,
                status: last,
                item: Some(
                    (delta, MidiEvent::Meta { event_type: s[at], data: s.subrange(start, end) }),
                ),
            }
        }
    } else if status == 0xF0 || status == 0xF7 {
        TrackStep {
            offset: lesser(at + vlq_len(s, at) + vlq_value(s, at), len),
            status: last,
            item: Some((delta, MidiEvent::Other)),
        }
    } else {
        TrackStep { offset: at, status: last, item: Some((delta, MidiEvent::Other)) }
    }
}

/// The step from `offset`, with the last channel status seen before.
///
/// An event is a delta time, a status byte, which a channel message may leave
/// out where it is the last one seen, and data. Data bytes that are missing at
/// the end count as 0.
#[verifier::opaque]
pub open spec fn track_step(s: Seq<u8>, offset: int, last: Option<u8>) -> TrackStep {
    let at = offset + vlq_len(s, offset);
    let delta = vlq_value(s, offset);
    if at >= s.len() {
        TrackStep { offset: at, status: last, item: None }
    } else if s[at] < 0x80 {
        match last {
            Some(status) => channel_step(s, at, delta, status),
            None => TrackStep { offset: at, status: None, item: None },
        }
    } else if s[at] < 0xF0 {
        channel_step(s, at + 1, delta, s[at])
    } else {
        system_step(s, at + 1, delta, s[at], last)
    }
}

/// Whether the event at `offset` is a meta event of which only the status byte is there.
pub open spec fn cut_meta(s: Seq<u8>, offset: int) -> bool {
    let at = offset + vlq_len(s, offset);
    at + 1 == s.len() && s[at] == 0xFF
}

/// A step that gets an event moves on, and a cut meta event is none.
pub proof fn lemma_step(s: Seq<u8>, offset: int, last: Option<u8>)
    requires
        0 <= offset,
    ensures
        track_step(s, offset, last).item is Some ==> offset < track_step(s, offset, last).offset
            <= s.len(),
        cut_meta(s, offset) ==> track_step(s, offset, last).item is None,
{
    reveal(track_step);
}

/// The events from `offset` on, with their delta times, up to the first step without one.
pub open spec fn track_events(s: Seq<u8>, offset: int, last: Option<u8>) -> Seq<
    (u32, MidiEvent<Seq<u8>>),
>
    decreases s.len() - offset,
{
    let step = track_step(s, offset, last);
    if offset < 0 || step.item is None {
        seq![]
    } else {
        proof {
            lemma_step(s, offset, last);
        }
        seq![step.item->0] + track_events(s, step.offset, step.status)
    }
}

/// Whether reading from `offset` on comes to a meta event that is cut off behind its status byte.
pub open spec fn ends_cut(s: Seq<u8>, offset: int, last: Option<u8>) -> bool
    decreases s.len() - offset,
{
    let step = track_step(s, offset, last);
    if offset < 0 || step.item is None {
        cut_meta(s, offset)
    } else {
        proof {
            lemma_step(s, offset, last);
        }
        ends_cut(s, step.offset, step.status)
    }
}

/// A reader over the bytes of a track.
#[derive(Clone, Copy, Debug)]
pub struct TrackIter<'a> {
    data: &'a [u8],
    offset: usize,
    last_status: Option<u8>,
}

impl<'a> TrackIter<'a> {
    /// The bytes of the track.
    pub closed spec fn bytes(self) -> Seq<u8> {
        self.data@
    }

    /// How many bytes have been read.
    pub closed spec fn position(self) -> int {
        self.offset as int
    }

    /// The last channel status byte.
    pub closed spec fn status(self) -> Option<u8> {
        self.last_status
    }

    /// The position is inside the track, and the last status is one of a channel.
    #[verifier::type_invariant]
    pub open spec fn inv(self) -> bool {
        &&& 0 <= self.position() <= self.bytes().len()
        &&& self.status() matches Some(s) ==> 0x80 <= s < 0xF0
    }

    /// The events that are still to come.
    pub open spec fn events(self) -> Seq<(u32, MidiEvent<Seq<u8>>)> {
        track_events(self.bytes(), self.position(), self.status())
    }

    /// Whether reading on comes to a meta event that is cut off behind its status byte.
    pub open spec fn cut(self) -> bool {
        ends_cut(self.bytes(), self.position(), self.status())
    }

    /// A reader at the start of a track.
    pub fn new(data: &'a [u8]) -> (r: TrackIter<'a>)
        ensures
            r.bytes() == data@,
            r.position() == 0,
            r.status() is None,
    {
        TrackIter { data, offset: 0, last_status: None }
    }

    /// Reads the next event, with its delta time.
    ///
    /// `None` comes at the end of the track, and at a data byte where no channel
    /// status came before. The next event must not be a meta event that is cut off
    /// behind its status byte; [`TrackIter::at_cut_meta`] tells.
    pub fn next_event(&mut self) -> (r: Option<(u32, MidiEvent<&'a [u8]>)>)
        requires
            !cut_meta(old(self).bytes(), old(self).position()),
        ensures
            final(self).bytes() == old(self).bytes(),
            ({
                let step = track_step(old(self).bytes(), old(self).position(), old(self).status());
                &&& final(self).position() == step.offset <= final(self).bytes().len()
                &&& final(self).status() == step.status
                &&& step.item == match r {
                    Some((delta, event)) => Some((delta, event@)),
                    None => None,
                }
            }),
            match r {
                Some((delta, event)) => {
                    &&& old(self).events() == seq![(delta, event@)] + final(self).events()
                    &&& old(self).cut() == final(self).cut()
                    &&& old(self).position() < final(self).position()
                },
                None => {
                    &&& old(self).events().len() == 0
                    &&& !old(self).cut()
                },
            },
    {
        proof {
            use_type_invariant(&*self);
            reveal(track_step);
        }
        let data: &'a [u8] = self.data;
        let len: usize = data.len();
        let mut offset: usize = self.offset;
        let delta: u32 = read_vlq_at(data, &mut offset);
        if offset >= len {
            self.offset = offset;
            return None;
        }
        let first: u8 = data[offset];
        let status: u8 = if first >= 0x80 {
            offset += 1;
            first
        } else {
            match self.last_status {
                Some(status) => status,
                None => {
                    self.offset = offset;
                    return None;
                },
            }
        };
        if status >= 0xF0 {
            let event = if status == 0xFF {
                let event_type: u8 = data[offset];
                offset += 1;
                let meta_len: u32 = read_vlq_at(data, &mut offset);
                let end: usize = clip(offset, meta_len, len);
                let event = MidiEvent::Meta { event_type, data: &data[offset..end] };
                offset = end;
                event
            } else if status == 0xF0 || status == 0xF7 {
                let skip: u32 = read_vlq_at(data, &mut offset);
                offset = clip(offset, skip, len);
                MidiEvent::Other
            } else {
                MidiEvent::Other
            };
            self.offset = offset;
            return Some((delta, event));
        }
        self.last_status = Some(status);
        let channel: u8 = status % 16;
        let d1: u8 = read_or_zero(data, offset);
        let d2: u8 = if len - offset > 1 {
            data[offset + 1]
        } else {
            0
        };
        let kind: u8 = status / 16;
        let event = match kind {
            0x8 => MidiEvent::NoteOff { channel, key: d1, velocity: d2 },
            0x9 => if d2 == 0 {
                MidiEvent::NoteOff { channel, key: d1, velocity: 0 }
            } else {
                MidiEvent::NoteOn { channel, key: d1, velocity: d2 }
            },
            0xB => MidiEvent::ControlChange { channel, controller: d1, value: d2 },
            0xC => MidiEvent::ProgramChange { channel, program: d1 },
            0xE => MidiEvent::PitchBend { channel, bend: ((d2 as u16) << 7u16) | (d1 as u16) },
            _ => MidiEvent::Other,
        };
        let taken: u32 = if kind == 0xC || kind == 0xD {
            1
        } else {
            2
        };
        self.offset = clip(offset, taken, len);
        Some((delta, event))
    }

    /// Whether reading on comes to a meta event that is cut off behind its status byte.
    pub fn is_cut(&self) -> (r: bool)
        ensures
            r == self.cut(),
    {
        proof {
            use_type_invariant(self);
        }
        let mut iter: TrackIter<'a> = *self;
        loop
            invariant
                iter.cut() == self.cut(),
                0 <= iter.position() <= iter.bytes().len(),
            decreases iter.bytes().len() - iter.position(),
        {
            proof {
                lemma_step(iter.bytes(), iter.position(), iter.status());
            }
            if iter.at_cut_meta() {
                return true;
            }
            if iter.next_event().is_none() {
                return false;
            }
        }
    }

    /// Whether the next event is a meta event that is cut off behind its status byte.
    pub fn at_cut_meta(&self) -> (r: bool)
        ensures
            r == cut_meta(self.bytes(), self.position()),
    {
        let mut at: usize = self.offset;
        let _ = read_vlq_at(self.data, &mut at);
        at < self.data.len() && self.data.len() - at == 1 && self.data[at] == 0xFF
    }
}

/// The header of a file, the number of its tracks, its division word and the
/// file without a RIFF wrapper; or why there is none.
pub open spec fn header_of(raw: Seq<u8>) -> Result<(Header, u16, u16, Seq<u8>), Error> {
    let file = if named(raw, 0, RIFF) {
        riff::unwrapped(raw)
    } else if named(raw, 0, MTHD) {
        Ok(raw)
    } else {
        Err(Error::NotMidi)
    };
    match file {
        Err(e) => Err(e),
        Ok(s) => if s.len() < 14 {
            Err(Error::HeaderCut)
        } else if !named(s, 0, MTHD) {
            Err(Error::HeaderChunk)
        } else {
            match Format::of_number(be16(s, 8)) {
                None => Err(Error::SmfFormat),
                Some(format) => match Timing::of_division(be16(s, 12)) {
                    None => Err(Error::SmpteFps),
                    Some(timing) => Ok(
                        (Header { format, timing }, be16(s, 10), be16(s, 12), s),
                    ),
                },
            }
        },
    }
}

/// Reads the header of a file.
///
/// Returns it with the number of tracks, the division word and the file without
/// a RIFF wrapper.
pub fn parse_header<'a>(raw: &'a [u8]) -> (r: Result<(Header, u16, u16, &'a [u8]), Error>)
    ensures
        header_of(raw@) == match r {
            Ok((header, tracks, division, file)) => Ok::<(Header, u16, u16, Seq<u8>), Error>(
                (header, tracks, division, file@),
            ),
            Err(e) => Err(e),
        },
        r matches Ok((_, _, _, file)) ==> file@.len() >= 14,
{
    let file: &'a [u8] = if is_named(raw, 0, RIFF) {
        match riff::unwrap(raw) {
            Ok(file) => file,
            Err(e) => return Err(e),
        }
    } else if is_named(raw, 0, MTHD) {
        raw
    } else {
        return Err(Error::NotMidi);
    };
    if file.len() < 14 {
        return Err(Error::HeaderCut);
    }
    if !is_named(file, 0, MTHD) {
        return Err(Error::HeaderChunk);
    }
    let division: u16 = read_be16(file, 12);
    match Format::from_number(read_be16(file, 8)) {
        None => Err(Error::SmfFormat),
        Some(format) => match Timing::from_division(division) {
            None => Err(Error::SmpteFps),
            Some(timing) => Ok((Header { format, timing }, read_be16(file, 10), division, file)),
        },
    }
}

/// The data of the first `count` track chunks from `offset` on, the last as far
/// as the file goes. Chunks of other kinds are passed over.
pub open spec fn tracks_from(s: Seq<u8>, offset: int, count: int) -> Seq<Seq<u8>>
    decreases
        if s.len() > offset {
            s.len() - offset
        } else {
            0
        },
{
    if count <= 0 || offset < 0 || offset + 8 > s.len() {
        seq![]
    } else {
        let next = offset + 8 + be32(s, offset + 4);
        if named(s, offset, MTRK) {
            seq![s.subrange(offset + 8, lesser(next, s.len() as int))] + tracks_from(
                s,
                next,
                count - 1,
            )
        } else {
            tracks_from(s, next, count)
        }
    }
}

/// Whether `iters` stand at the starts of `tracks`.
pub open spec fn at_starts(iters: Seq<TrackIter>, tracks: Seq<Seq<u8>>) -> bool {
    &&& iters.len() == tracks.len()
    &&& forall|i: int|
        0 <= i < iters.len() ==> {
            &&& (#[trigger] iters[i]).bytes() == tracks[i]
            &&& iters[i].position() == 0
            &&& iters[i].status() is None
        }
}

/// Readers for the first `tracks_count` tracks of a file with a 14-byte header.
pub fn iter_tracks_from_data<'a>(data: &'a [u8], tracks_count: u16) -> (r: Vec<TrackIter<'a>>)
    ensures
        at_starts(r@, tracks_from(data@, 14, tracks_count as int)),
        r@.len() <= tracks_count,
{
    let mut tracks: Vec<TrackIter<'a>> = Vec::new();
    let len: usize = data.len();
    let mut offset: usize = 14;
    let mut left: u16 = tracks_count;
    let ghost all = tracks_from(data@, 14, tracks_count as int);
    let ghost done: Seq<Seq<u8>> = seq![];
    proof {
        assert(done + all =~= all);
    }
    while left > 0 && offset <= len && len - offset >= 8
        invariant
            len == data@.len(),
            tracks@.len() + left == tracks_count,
            at_starts(tracks@, done),
            all == done + tracks_from(data@, offset as int, left as int),
        ensures
            at_starts(tracks@, all),
        decreases len + 1 - offset,
    {
        let chunk_len: u32 = read_be32(data, offset + 4);
        let next: usize = clip(offset + 8, chunk_len, len);
        let ghost from = offset + 8 + be32(data@, offset + 4);
        let ghost keep = named(data@, offset as int, MTRK);
        assert(next < from ==> next == len);
        proof {
            lemma_tracks_end(data@, from, left as int);
            lemma_tracks_end(data@, from, left - 1);
            lemma_tracks_end(data@, next as int, left as int);
            lemma_tracks_end(data@, next as int, left - 1);
        }
        if is_named(data, offset, MTRK) {
            let track: &'a [u8] = &data[offset + 8..next];
            tracks.push(TrackIter::new(track));
            left -= 1;
            proof {
                assert(all =~= done.push(track@) + tracks_from(data@, from, left as int));
                done = done.push(track@);
            }
        }
        offset = next;
    }
    tracks
}

/// There are no tracks from the end on.
proof fn lemma_tracks_end(s: Seq<u8>, offset: int, count: int)
    ensures
        offset >= s.len() ==> tracks_from(s, offset, count) == Seq::<Seq<u8>>::empty(),
{
}

/// What a scan takes from the data at `at` for a status byte, and where it goes on.
///
/// A note that is cut off ends the scan.
#[verifier::opaque]
pub open spec fn scan_body(s: Seq<u8>, at: int, status: u8) -> (Cue, int) {
    let len = s.len() as int;
    let kind = status / 16;
    if at >= len {
        (Cue::Other, len)
    } else if kind == 0x8 || kind == 0x9 {
        if at + 2 > len {
            (Cue::Other, len)
        } else if kind == 0x9 && s[at + 1] > 0 {
            (Cue::Strike { key: s[at], velocity: s[at + 1] }, at + 2)
        } else {
            (Cue::Release { key: s[at] }, at + 2)
        }
    } else if kind == 0xA || kind == 0xB || kind == 0xE {
        (Cue::Other, lesser(at + 2, len))
    } else if kind == 0xC || kind == 0xD {
        (Cue::Other, lesser(at + 1, len))
    } else if status == 0xFF {
        let start = at + 1 + vlq_len(s, at + 1);
        let size = vlq_value(s, at + 1);
        let cue = if s[at] == 0x51 && size >= 3 && start + 3 <= len && be24(s, start) > 0 {
            Cue::Tempo { microseconds: be24(s, start) }
        } else {
            Cue::Other
        };
        (cue, lesser(start + size, len))
    } else if status == 0xF0 || status == 0xF7 {
        (Cue::Other, lesser(at + vlq_len(s, at) + vlq_value(s, at), len))
    } else {
        (Cue::Other, at)
    }
}

/// A scan never goes back, nor past the end.
pub proof fn lemma_scan_body(s: Seq<u8>, at: int, status: u8)
    requires
        0 <= at <= s.len(),
    ensures
        at <= scan_body(s, at, status).1 <= s.len(),
{
    reveal(scan_body);
}

/// The cues that a scan finds from `offset` on, with the last channel status
/// seen before, or 0 where none was.
pub open spec fn scan_cues(s: Seq<u8>, offset: int, last: u8) -> Seq<(u32, Cue)>
    decreases s.len() - offset,
{
    let start = offset + vlq_len(s, offset);
    if offset < 0 || start >= s.len() {
        seq![]
    } else {
        let first = s[start];
        proof {
            lemma_scan_body(s, start, last);
            lemma_scan_body(s, start + 1, first);
        }
        let (cue, next) = if first < 0x80 {
            scan_body(s, start, last)
        } else {
            scan_body(s, start + 1, first)
        };
        let status = if 0x80 <= first < 0xF0 {
            first
        } else {
            last
        };
        seq![(vlq_value(s, offset), cue)] + scan_cues(s, next, status)
    }
}

/// How many entries are true.
spec fn held(active: Seq<bool>) -> nat
    decreases active.len(),
{
    if active.len() == 0 {
        0
    } else {
        held(active.drop_last()) + if active.last() {
            1nat
        } else {
            0
        }
    }
}

proof fn lemma_held_update(active: Seq<bool>, i: int, b: bool)
    requires
        0 <= i < active.len(),
    ensures
        held(active.update(i, b)) + (if active[i] {
            1nat
        } else {
            0
        }) == held(active) + if b {
            1nat
        } else {
            0
        },
    decreases active.len(),
{
    let after = active.update(i, b);
    if i == active.len() - 1 {
        assert(after.drop_last() =~= active.drop_last());
    } else {
        assert(after.drop_last() =~= active.drop_last().update(i, b));
        lemma_held_update(active.drop_last(), i, b);
    }
}

proof fn lemma_held_none(active: Seq<bool>)
    requires
        forall|i: int| 0 <= i < active.len() ==> !active[i],
    ensures
        held(active) == 0,
    decreases active.len(),
{
    if active.len() > 0 {
        lemma_held_none(active.drop_last());
    }
}

/// Counts the notes of a track and finds its last tick and its tempo changes,
/// each a tick with the microseconds of a quarter note.
pub fn scan_track_notes_only(data: &[u8]) -> (r: (u64, u32, Vec<(u32, u32)>))
    ensures
        ({
            let cues = scan_cues(data@, 0, 0);
            &&& r.0 == strikes(cues, 256)
            &&& r.1 == last_tick(cues, 0)
            &&& r.2@ == tempos(cues, 0)
        }),
        r.0 <= data@.len(),
{
    let len: usize = data.len();
    let mut note_count: u64 = 0;
    let mut tempo_changes: Vec<(u32, u32)> = Vec::new();
    let mut active: [bool; 256] = [false; 256];
    let mut offset: usize = 0;
    let mut current_tick: u32 = 0;
    let mut last_status: u8 = 0;
    let ghost all = scan_cues(data@, 0, 0);
    proof {
        lemma_held_none(active@);
        assert(tempo_changes@ + tempos(all, 0) =~= tempos(all, 0));
    }
    while offset < len
        invariant
            len == data@.len(),
            offset <= len,
            active@.len() == 256,
            note_count + held(active@) <= offset,
            strikes(all, 256) == note_count + held(active@) + strikes(
                scan_cues(data@, offset as int, last_status),
                256,
            ),
            last_tick(all, 0) == last_tick(
                scan_cues(data@, offset as int, last_status),
                current_tick,
            ),
            tempos(all, 0) == tempo_changes@ + tempos(
                scan_cues(data@, offset as int, last_status),
                current_tick,
            ),
        ensures
            offset >= len,
        decreases len - offset,
    {
        let ghost before = offset as int;
        let ghost tick = current_tick;
        let delta: u32 = read_vlq_at(data, &mut offset);
        if offset >= len {
            assert(scan_cues(data@, before, last_status).len() == 0);
            assert(scan_cues(data@, offset as int, last_status).len() == 0);
            break;
        }
        current_tick = current_tick.saturating_add(delta);
        let first: u8 = data[offset];
        let status: u8 = if first < 0x80 {
            last_status
        } else {
            offset += 1;
            first
        };
        let ghost (cue, next) = scan_body(data@, offset as int, status);
        proof {
            reveal(scan_body);
        }
        let ghost new_status = if 0x80 <= first < 0xF0 {
            first
        } else {
            last_status
        };
        proof {
            lemma_first_cue(delta, cue, scan_cues(data@, next, new_status), tick, 256);
            assert(scan_cues(data@, before, last_status) == seq![(delta, cue)] + scan_cues(
                data@,
                next,
                new_status,
            ));
            assert(current_tick == later(tick, delta));
        }
        if 0x80 <= first && first < 0xF0 {
            last_status = first;
        }
        let kind: u8 = status / 16;
        if offset >= len {
            offset = len;
        } else if kind == 0x8 || kind == 0x9 {
            if len - offset < 2 {
                offset = len;
            } else {
                let key: usize = data[offset] as usize;
                let struck: bool = kind == 0x9 && data[offset + 1] > 0;
                proof {
                    lemma_held_update(active@, key as int, struck);
                }
                if active[key] {
                    note_count += 1;
                }
                active[key] = struck;
                offset += 2;
            }
        } else if kind == 0xA || kind == 0xB || kind == 0xE {
            offset = clip(offset, 2, len);
        } else if kind == 0xC || kind == 0xD {
            offset = clip(offset, 1, len);
        } else if status == 0xFF {
            let meta_type: u8 = data[offset];
            offset += 1;
            let meta_len: u32 = read_vlq_at(data, &mut offset);
            if meta_type == 0x51 && meta_len >= 3 && len - offset >= 3 {
                let microseconds: u32 = read_be24(data, offset);
                if microseconds > 0 {
                    tempo_changes.push((current_tick, microseconds));
                }
            }
            offset = clip(offset, meta_len, len);
        } else if status == 0xF0 || status == 0xF7 {
            let skip: u32 = read_vlq_at(data, &mut offset);
            offset = clip(offset, skip, len);
        }
        assert(offset == next);
    }
    assert(scan_cues(data@, offset as int, last_status).len() == 0);
    assert(active@.subrange(0, 256) =~= active@);
    let mut i: usize = 256;
    while i > 0
        invariant
            i <= 256,
            active@.len() == 256,
            note_count + held(active@.subrange(0, i as int)) == strikes(all, 256),
            strikes(all, 256) <= len,
        decreases i,
    {
        assert(active@.subrange(0, i as int).drop_last() =~= active@.subrange(0, i - 1));
        i -= 1;
        if active[i] {
            note_count += 1;
        }
    }
    (note_count, current_tick, tempo_changes)
}

} // verus!
