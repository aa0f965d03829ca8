//! Rewriting a file so that its notes do not overlap.
//!
//! Each track is read event by event and written again. A note that is struck
//! while it still sounds is ended first, notes with a velocity from 1 to 10 are
//! left out, and so are note-offs for keys that do not sound. Everything else
//! is kept at its time.

use vstd::prelude::*;

use crate::bytes::{be32, be32_bytes, lesser, named};
use crate::bytes::{clip, copied, is_named, push_be32, push_range, read_be32, MTHD, MTRK};
use crate::bytes::lemma_be32_round_trip;
use crate::error::Error;
use crate::mmap::prefixed;
use crate::vlq::{lemma_vlq_round_trip, vlq_bytes, vlq_complete, vlq_len, vlq_value};
use crate::vlq::{read_varlen_fast, write_vlq};

verus! {

/// An event of a track as it stands in the file.
#[derive(Debug, PartialEq, Eq)]
pub struct RawEvent<B> {
    pub delta: u32,
    pub kind: RawEventKind<B>,
}

/// What an event does.
#[derive(Debug, PartialEq, Eq)]
pub enum RawEventKind<B> {
    Midi { status: u8, data1: u8, data2: Option<u8> },
    SysEx { data: B },
    Escape { data: B },
    Meta { type_byte: u8, data: B },
}

impl<B: View<V = Seq<u8>>> View for RawEventKind<B> {
    type V = RawEventKind<Seq<u8>>;

    open spec fn view(&self) -> RawEventKind<Seq<u8>> {
        match *self {
            RawEventKind::Midi { status, data1, data2 } => RawEventKind::Midi {
                status,
                data1,
                data2,
            },
            RawEventKind::SysEx { data } => RawEventKind::SysEx { data: data@ },
            RawEventKind::Escape { data } => RawEventKind::Escape { data: data@ },
            RawEventKind::Meta { type_byte, data } => RawEventKind::Meta { type_byte, data: data@ },
        }
    }
}

impl<B: View<V = Seq<u8>>> View for RawEvent<B> {
    type V = RawEvent<Seq<u8>>;

    open spec fn view(&self) -> RawEvent<Seq<u8>> {
        RawEvent { delta: self.delta, kind: self.kind@ }
    }
}

/// How many data bytes a channel status takes.
pub open spec fn data_count(status: u8) -> int {
    if status / 16 == 0xC || status / 16 == 0xD {
        1
    } else {
        2
    }
}

/// The message of a status whose data starts `d`, and how many bytes it takes.
pub open spec fn raw_message(status: u8, count: int, d: Seq<u8>) -> Result<
    (RawEventKind<Seq<u8>>, int),
    Error,
> {
    if d.len() < count {
        Err(Error::UnexpectedEof)
    } else {
        Ok(
            (
                RawEventKind::Midi {
                    status,
                    data1: if count >= 1 {
                        d[0]
                    } else {
                        0
                    },
                    data2: if count >= 2 {
                        Some(d[1])
                    } else {
                        None
                    },
                },
                count,
            ),
        )
    }
}

/// How many data bytes a system message takes.
pub open spec fn system_count(status: u8) -> int {
    if status == 0xF1 || status == 0xF3 {
        1
    } else if status == 0xF2 {
        2
    } else {
        0
    }
}

/// The event at the start of `d`, behind its delta time, and how many bytes it takes.
#[verifier::opaque]
pub open spec fn raw_kind(d: Seq<u8>, running: Option<u8>) -> Result<
    (RawEventKind<Seq<u8>>, int),
    Error,
> {
    let eof = Error::UnexpectedEof;
    if d.len() == 0 {
        Err(eof)
    } else if d[0] < 0x80 {
        match running {
            Some(status) => raw_message(status, data_count(status), d),
            None => Err(Error::InputRunningStatus),
        }
    } else {
        let found = if d[0] < 0xF0 {
            raw_message(d[0], data_count(d[0]), d.skip(1))
        } else if d[0] == 0xF0 {
            match prefixed(d.skip(1), eof, eof) {
                Ok((data, n)) => Ok((RawEventKind::SysEx { data }, n)),
                Err(e) => Err(e),
            }
        } else if d[0] == 0xF7 {
            match prefixed(d.skip(1), eof, eof) {
                Ok((data, n)) => Ok((RawEventKind::Escape { data }, n)),
                Err(e) => Err(e),
            }
        } else if d[0] == 0xFF {
            if d.len() < 2 {
                Err(eof)
            } else {
                match prefixed(d.skip(2), eof, eof) {
                    Ok((data, n)) => Ok((RawEventKind::Meta { type_byte: d[1], data }, n + 1)),
                    Err(e) => Err(e),
                }
            }
        } else {
            raw_message(d[0], system_count(d[0]), d.skip(1))
        };
        match found {
            Ok((kind, n)) => Ok((kind, n + 1)),
            Err(e) => Err(e),
        }
    }
}

/// The channel status that the event behind the one at the start of `d` may leave out.
pub open spec fn raw_running(d: Seq<u8>, running: Option<u8>) -> Option<u8> {
    if d.len() == 0 || d[0] < 0x80 {
        running
    } else if d[0] < 0xF0 {
        Some(d[0])
    } else {
        None
    }
}

/// What a step over track data gives, and what it leaves.
pub struct RawStep {
    pub item: Option<Result<RawEvent<Seq<u8>>, Error>>,
    pub rest: Seq<u8>,
    pub running: Option<u8>,
}

/// The step over the event at the start of `d`. Data that ends inside a delta time
/// ends the track. Where data ends inside an event, nothing is left; where an event
/// begins with a data byte and there is no status for it, that byte is taken.
pub open spec fn raw_step(d: Seq<u8>, running: Option<u8>) -> RawStep {
    if !vlq_complete(d, 0) {
        RawStep { item: None, rest: seq![], running }
    } else {
        let event = d.skip(vlq_len(d, 0));
        let after = raw_running(event, running);
        match raw_kind(event, running) {
            Ok((kind, n)) => RawStep {
                item: Some(Ok(RawEvent { delta: vlq_value(d, 0), kind })),
                rest: event.skip(n),
                running: after,
            },
            Err(e) => RawStep {
                item: Some(Err(e)),
                rest: if e == Error::InputRunningStatus {
                    event.skip(1)
                } else {
                    seq![]
                },
                running: after,
            },
        }
    }
}

/// A step that gets an event takes at least one byte.
pub proof fn lemma_raw_step(d: Seq<u8>, running: Option<u8>)
    ensures
        raw_step(d, running).item is Some ==> raw_step(d, running).rest.len() < d.len(),
{
    reveal(raw_kind);
}

/// The events of track data, up to its end or to an error.
pub open spec fn raw_events(d: Seq<u8>, running: Option<u8>) -> Seq<RawEvent<Seq<u8>>>
    decreases d.len(),
{
    let step = raw_step(d, running);
    match step.item {
        Some(Ok(event)) => {
            proof {
                lemma_raw_step(d, running);
            }
            seq![event] + raw_events(step.rest, step.running)
        },
        _ => seq![],
    }
}

/// The error that ends the events of track data.
pub open spec fn raw_error(d: Seq<u8>, running: Option<u8>) -> Option<Error>
    decreases d.len(),
{
    let step = raw_step(d, running);
    match step.item {
        Some(Ok(event)) => {
            proof {
                lemma_raw_step(d, running);
            }
            raw_error(step.rest, step.running)
        },
        Some(Err(e)) => Some(e),
        None => None,
    }
}

/// Reads track data event by event.
#[derive(Debug)]
pub struct TrackParser<'a> {
    data: &'a [u8],
    running_status: Option<u8>,
}

impl<'a> TrackParser<'a> {
    /// The data that is left.
    pub closed spec fn rest(self) -> Seq<u8> {
        self.data@
    }

    /// The channel status that the next event may leave out.
    pub closed spec fn running(self) -> Option<u8> {
        self.running_status
    }

    /// At the start of track data.
    pub fn new(data: &'a [u8]) -> (r: TrackParser<'a>)
        ensures
            r.rest() == data@,
            r.running() is None,
    {
        TrackParser { data, running_status: None }
    }

    /// The next event, or an error; `None` at the end of the track.
    pub fn next_event(&mut self) -> (r: Option<Result<RawEvent<Vec<u8>>, Error>>)
        ensures
            ({
                let step = raw_step(old(self).rest(), old(self).running());
                &&& final(self).rest() == step.rest
                &&& final(self).running() == step.running
                &&& match r {
                    None => step.item is None,
                    Some(Ok(event)) => step.item == Some(Ok::<RawEvent<Seq<u8>>, Error>(event@)),
                    Some(Err(e)) => step.item == Some(Err::<RawEvent<Seq<u8>>, Error>(e)),
                }
            }),
    {
        let d: &'a [u8] = self.data;
        let len: usize = d.len();
        self.data = &d[len..len];
        assert(self.data@ =~= seq![]);
        let (delta, n) = match read_varlen_fast(d) {
            Some(found) => found,
            None => return None,
        };
        let mut event: &'a [u8] = &d[n..len];
        assert(event@ =~= d@.skip(n as int));
        let running = self.running_status;
        if event.len() > 0 && event[0] >= 0x80 {
            self.running_status = if event[0] < 0xF0 {
                Some(event[0])
            } else {
                None
            };
        }
        proof {
            reveal(raw_kind);
        }
        if event.len() > 0 && event[0] < 0x80 && running.is_none() {
            self.data = &event[1..event.len()];
            assert(self.data@ =~= event@.skip(1));
            return Some(Err(Error::InputRunningStatus));
        }
        match parse_raw_kind(&mut event, running) {
            Ok(kind) => {
                self.data = event;
                Some(Ok(RawEvent { delta, kind }))
            },
            Err(e) => Some(Err(e)),
        }
    }
}

fn parse_message(status: u8, count: usize, data: &mut &[u8]) -> (r: Result<
    RawEventKind<Vec<u8>>,
    Error,
>)
    requires
        count <= 2,
    ensures
        match r {
            Ok(kind) => raw_message(status, count as int, old(data)@) matches Ok((k, n)) && k
                == kind@ && 0 <= n <= old(data)@.len() && final(data)@ == old(data)@.skip(n),
            Err(e) => raw_message(status, count as int, old(data)@) == Err::<
                (RawEventKind<Seq<u8>>, int),
                Error,
            >(e) && final(data)@ == old(data)@,
        },
{
    let d = *data;
    if d.len() < count {
        return Err(Error::UnexpectedEof);
    }
    let data1: u8 = if count >= 1 {
        d[0]
    } else {
        0
    };
    let data2: Option<u8> = if count >= 2 {
        Some(d[1])
    } else {
        None
    };
    *data = &d[count..d.len()];
    Ok(RawEventKind::Midi { status, data1, data2 })
}

fn parse_data(data: &mut &[u8]) -> (r: Result<Vec<u8>, Error>)
    ensures
        match r {
            Ok(taken) => prefixed(old(data)@, Error::UnexpectedEof, Error::UnexpectedEof) matches Ok(
                (t, n),
            ) && t == taken@ && 0 <= n <= old(data)@.len() && final(data)@ == old(data)@.skip(n),
            Err(e) => prefixed(old(data)@, Error::UnexpectedEof, Error::UnexpectedEof) == Err::<
                (Seq<u8>, int),
                Error,
            >(e),
        },
{
    let d = *data;
    match read_varlen_fast(d) {
        None => Err(Error::UnexpectedEof),
        Some((length, n)) => {
            if ((d.len() - n) as u64) < length as u64 {
                return Err(Error::UnexpectedEof);
            }
            let end: usize = n + length as usize;
            *data = &d[end..d.len()];
            Ok(copied(&d[n..end]))
        },
    }
}

fn parse_raw_kind(data: &mut &[u8], running: Option<u8>) -> (r: Result<RawEventKind<Vec<u8>>, Error>)
    ensures
        match r {
            Ok(kind) => raw_kind(old(data)@, running) matches Ok((k, n)) && k == kind@ && 0 <= n
                <= old(data)@.len() && final(data)@ == old(data)@.skip(n),
            Err(e) => raw_kind(old(data)@, running) == Err::<(RawEventKind<Seq<u8>>, int), Error>(
                e,
            ),
        },
{
    broadcast use vstd::seq_lib::lemma_seq_skip_of_skip;

    proof {
        reveal(raw_kind);
    }
    let d = *data;
    let len: usize = d.len();
    if len == 0 {
        return Err(Error::UnexpectedEof);
    }
    let status: u8 = d[0];
    let ghost whole = d@;
    if status < 0x80 {
        return match running {
            Some(status) => {
                let count: usize = if status / 16 == 0xC || status / 16 == 0xD {
                    1
                } else {
                    2
                };
                parse_message(status, count, data)
            },
            None => Err(Error::InputRunningStatus),
        };
    }
    *data = &d[1..len];
    proof {
        assert(data@ =~= whole.skip(1));
    }
    if status < 0xF0 {
        let count: usize = if status / 16 == 0xC || status / 16 == 0xD {
            1
        } else {
            2
        };
        parse_message(status, count, data)
    } else if status == 0xF0 {
        match parse_data(data) {
            Ok(data) => Ok(RawEventKind::SysEx { data }),
            Err(e) => Err(e),
        }
    } else if status == 0xF7 {
        match parse_data(data) {
            Ok(data) => Ok(RawEventKind::Escape { data }),
            Err(e) => Err(e),
        }
    } else if status == 0xFF {
        if len < 2 {
            return Err(Error::UnexpectedEof);
        }
        let type_byte: u8 = d[1];
        *data = &d[2..len];
        proof {
            assert(data@ =~= whole.skip(2));
        }
        match parse_data(data) {
            Ok(data) => Ok(RawEventKind::Meta { type_byte, data }),
            Err(e) => Err(e),
        }
    } else {
        let count: usize = if status == 0xF1 || status == 0xF3 {
            1
        } else if status == 0xF2 {
            2
        } else {
            0
        };
        parse_message(status, count, data)
    }
}

/// The tick `delta` ticks after `tick`, modulo 2^32.
#[verifier::opaque]
pub open spec fn wrapped(tick: u32, delta: u32) -> u32 {
    ((tick + delta) % 0x1_0000_0000) as u32
}

/// Ticks modulo 2^32 add up in any order.
proof fn lemma_wrapped(a: u32, b: u32, c: u32)
    ensures
        wrapped(wrapped(a, b), c) == wrapped(a, wrapped(b, c)),
        wrapped(a, 0) == a,
        wrapped(0, a) == a,
{
    reveal(wrapped);
}

/// The least velocity of a note that is kept.
pub const MIN_VELOCITY: u8 = 11;

/// What the rewriting of a track remembers between events.
pub struct FixState {
    /// The ticks since the last event that was written.
    pub pending: u32,
    /// For each channel and key, whether it sounds.
    pub active: Seq<Seq<bool>>,
}

/// A note-on message.
pub open spec fn note_on(channel: u8, key: u8, velocity: u8) -> RawEventKind<Seq<u8>> {
    RawEventKind::Midi { status: (0x90 + channel) as u8, data1: key, data2: Some(velocity) }
}

/// What ends a note: a note-on with velocity 0 where the velocity is 0.
pub open spec fn note_end(channel: u8, key: u8, velocity: u8) -> RawEventKind<Seq<u8>> {
    if velocity == 0 {
        note_on(channel, key, 0)
    } else {
        RawEventKind::Midi { status: (0x80 + channel) as u8, data1: key, data2: Some(velocity) }
    }
}

impl FixState {
    /// Before the first event.
    pub open spec fn start() -> FixState {
        FixState { pending: 0, active: Seq::new(16, |c: int| Seq::new(128, |k: int| false)) }
    }

    /// Whether a key sounds.
    pub open spec fn sounds(self, channel: u8, key: u8) -> bool {
        self.active[channel as int][key as int]
    }

    /// A key sounds, or does not, from now on.
    pub open spec fn with_key(self, channel: u8, key: u8, on: bool) -> FixState {
        FixState {
            active: self.active.update(
                channel as int,
                self.active[channel as int].update(key as int, on),
            ),
            ..self
        }
    }

    /// All time that has passed is written.
    pub open spec fn written(self) -> FixState {
        FixState { pending: 0, ..self }
    }

    /// Time passes. Ticks are counted modulo 2^32.
    pub open spec fn wait(self, delta: u32) -> FixState {
        FixState { pending: wrapped(self.pending, delta), ..self }
    }

    /// The state after a note is struck.
    pub open spec fn struck(self, channel: u8, key: u8) -> FixState {
        self.with_key(channel, key, true).written()
    }

    /// What is written for a note that is struck: where the key still sounds, the
    /// end of that note first.
    pub open spec fn strike_out(self, channel: u8, key: u8, velocity: u8) -> Seq<
        RawEvent<Seq<u8>>,
    > {
        if self.sounds(channel, key) {
            seq![
                RawEvent { delta: self.pending, kind: note_on(channel, key, 0) },
                RawEvent { delta: 0, kind: note_on(channel, key, velocity) },
            ]
        } else {
            seq![RawEvent { delta: self.pending, kind: note_on(channel, key, velocity) }]
        }
    }

    /// The state after a note ends.
    pub open spec fn ended(self, channel: u8, key: u8) -> FixState {
        if self.sounds(channel, key) {
            self.with_key(channel, key, false).written()
        } else {
            self
        }
    }

    /// What is written for a note that ends: nothing where the key does not sound.
    pub open spec fn end_out(self, channel: u8, key: u8, velocity: u8) -> Seq<RawEvent<Seq<u8>>> {
        if self.sounds(channel, key) {
            seq![RawEvent { delta: self.pending, kind: note_end(channel, key, velocity) }]
        } else {
            seq![]
        }
    }

    /// The state after an event.
    pub open spec fn next(self, event: RawEvent<Seq<u8>>) -> FixState {
        let now = self.wait(event.delta);
        match role(event.kind) {
            Role::Strike { channel, key, .. } => now.struck(channel, key),
            Role::End { channel, key, .. } => now.ended(channel, key),
            Role::Quiet => now,
            Role::Other => now.written(),
        }
    }

    /// What is written for an event.
    pub open spec fn out(self, event: RawEvent<Seq<u8>>) -> Seq<RawEvent<Seq<u8>>> {
        let now = self.wait(event.delta);
        match role(event.kind) {
            Role::Strike { channel, key, velocity } => now.strike_out(channel, key, velocity),
            Role::End { channel, key, velocity } => now.end_out(channel, key, velocity),
            Role::Quiet => seq![],
            Role::Other => seq![RawEvent { delta: now.pending, kind: event.kind }],
        }
    }

    /// What is written for some events.
    pub open spec fn fixed(self, events: Seq<RawEvent<Seq<u8>>>) -> Seq<RawEvent<Seq<u8>>>
        decreases events.len(),
    {
        if events.len() == 0 {
            seq![]
        } else {
            self.out(events[0]) + self.next(events[0]).fixed(events.drop_first())
        }
    }
}

/// What an event is to the rewriting of a track.
pub enum Role {
    /// A note that is loud enough.
    Strike { channel: u8, key: u8, velocity: u8 },
    /// The end of a note.
    End { channel: u8, key: u8, velocity: u8 },
    /// A note that is too quiet.
    Quiet,
    /// No note.
    Other,
}

/// What an event is to the rewriting of a track.
pub open spec fn role(kind: RawEventKind<Seq<u8>>) -> Role {
    match kind {
        RawEventKind::Midi { status, data1, data2 } => {
            let channel = status % 16;
            let key = data1;
            let velocity = match data2 {
                Some(v) => v,
                None => 0,
            };
            if status / 16 == 0x9 {
                if velocity >= MIN_VELOCITY {
                    Role::Strike { channel, key, velocity }
                } else if velocity == 0 {
                    Role::End { channel, key, velocity }
                } else {
                    Role::Quiet
                }
            } else if status / 16 == 0x8 {
                Role::End { channel, key, velocity }
            } else {
                Role::Other
            }
        },
        _ => Role::Other,
    }
}

/// Whether the key of an event, where one is looked at, is one of the 128 keys.
pub open spec fn narrow(kind: RawEventKind<Seq<u8>>) -> bool {
    match role(kind) {
        Role::Strike { key, .. } => key < 128,
        Role::End { key, .. } => key < 128,
        _ => true,
    }
}

/// Whether all keys that are looked at are among the 128 keys.
pub open spec fn all_narrow(events: Seq<RawEvent<Seq<u8>>>) -> bool {
    forall|i: int| 0 <= i < events.len() ==> narrow((#[trigger] events[i]).kind)
}

/// A length and the data behind it.
pub open spec fn with_length(data: Seq<u8>) -> Seq<u8> {
    vlq_bytes((data.len() % 0x1000_0000) as u32) + data
}

/// Whether a status is that of a message without data.
pub open spec fn bare(status: u8) -> bool {
    status >= 0xF0 && system_count(status) == 0
}

/// The bytes of an event behind its delta time, after an event with status `running`.
pub open spec fn kind_bytes(kind: RawEventKind<Seq<u8>>, running: Option<u8>) -> Seq<u8> {
    match kind {
        RawEventKind::Midi { status, data1, data2 } => if bare(status) {
            seq![status]
        } else {
            (if running == Some(status) {
                seq![]
            } else {
                seq![status]
            }) + seq![data1] + (match data2 {
                Some(d) => seq![d],
                None => seq![],
            })
        },
        RawEventKind::SysEx { data } => seq![0xF0u8] + with_length(data),
        RawEventKind::Escape { data } => seq![0xF7u8] + with_length(data),
        RawEventKind::Meta { type_byte, data } => seq![0xFFu8, type_byte] + with_length(data),
    }
}

/// The status that the event behind this one may leave out.
pub open spec fn running_after(kind: RawEventKind<Seq<u8>>) -> Option<u8> {
    match kind {
        RawEventKind::Midi { status, .. } if !bare(status) => Some(status),
        _ => None,
    }
}

/// The bytes of an event. Of the delta time the low 28 bits are written.
pub open spec fn raw_bytes(event: RawEvent<Seq<u8>>, running: Option<u8>) -> Seq<u8> {
    vlq_bytes(event.delta % 0x1000_0000) + kind_bytes(event.kind, running)
}

/// The bytes of some events.
pub open spec fn all_bytes(events: Seq<RawEvent<Seq<u8>>>, running: Option<u8>) -> Seq<u8>
    decreases events.len(),
{
    if events.len() == 0 {
        seq![]
    } else {
        raw_bytes(events[0], running) + all_bytes(
            events.drop_first(),
            running_after(events[0].kind),
        )
    }
}

/// The status that may be left out behind some events.
pub open spec fn running_behind(events: Seq<RawEvent<Seq<u8>>>, running: Option<u8>) -> Option<u8> {
    if events.len() == 0 {
        running
    } else {
        running_after(events.last().kind)
    }
}

/// Events can be written in two parts.
proof fn lemma_bytes_joined(
    a: Seq<RawEvent<Seq<u8>>>,
    b: Seq<RawEvent<Seq<u8>>>,
    running: Option<u8>,
)
    ensures
        all_bytes(a + b, running) == all_bytes(a, running) + all_bytes(
            b,
            running_behind(a, running),
        ),
    decreases a.len(),
{
    if a.len() == 0 {
        assert(a + b =~= b);
        assert(all_bytes(a, running) + all_bytes(b, running) =~= all_bytes(b, running));
    } else {
        let rest = a.drop_first();
        let after = running_after(a[0].kind);
        assert((a + b).drop_first() =~= rest + b);
        lemma_bytes_joined(rest, b, after);
        assert(running_behind(rest, after) == running_behind(a, running));
        assert(all_bytes(a + b, running) =~= all_bytes(a, running) + all_bytes(
            b,
            running_behind(a, running),
        ));
    }
}

/// One event is written as it is.
proof fn lemma_bytes_one(event: RawEvent<Seq<u8>>, running: Option<u8>)
    ensures
        all_bytes(seq![event], running) == raw_bytes(event, running),
{
    let one = seq![event];
    assert(one.drop_first() =~= seq![]);
    assert(all_bytes(one.drop_first(), running_after(event.kind)) =~= seq![]);
    assert(all_bytes(one, running) =~= raw_bytes(event, running));
}

/// The content of a track that is written again.
pub open spec fn track_content(d: Seq<u8>) -> Seq<u8> {
    all_bytes(FixState::start().fixed(raw_events(d, None)), None)
}

/// Appends a quantity of 28 bits; higher bits are dropped.
pub fn write_varlen(value: u32, out: &mut Vec<u8>)
    ensures
        final(out)@ == old(out)@ + vlq_bytes(value % 0x1000_0000),
{
    write_vlq(out, value % 0x1000_0000);
}

/// Writes the events of a track.
#[derive(Debug)]
pub struct TrackWriterState {
    pending_delta: u32,
    running_status: Option<u8>,
    active_notes: [[bool; 128]; 16],
}

impl TrackWriterState {
    /// What is remembered between events.
    pub closed spec fn state(self) -> FixState {
        FixState {
            pending: self.pending_delta,
            active: Seq::new(16, |c: int| self.active_notes@[c]@),
        }
    }

    /// The status that may be left out.
    pub closed spec fn running(self) -> Option<u8> {
        self.running_status
    }

    /// Before the first event.
    pub fn new() -> (r: TrackWriterState)
        ensures
            r.state() == FixState::start(),
            r.running() is None,
    {
        let r = TrackWriterState {
            pending_delta: 0,
            running_status: None,
            active_notes: [[false; 128]; 16],
        };
        assert(r.state().active =~= FixState::start().active) by {
            assert forall|c: int| 0 <= c < 16 implies #[trigger] r.state().active[c]
                =~= FixState::start().active[c] by {}
        }
        r
    }

    /// Time passes.
    pub fn accumulate_delta(&mut self, delta: u32)
        ensures
            final(self).state() == old(self).state().wait(delta),
            final(self).running() == old(self).running(),
    {
        proof {
            reveal(wrapped);
        }
        self.pending_delta = self.pending_delta.wrapping_add(delta);
        assert(self.state().active =~= old(self).state().active);
    }

    /// Writes the time that has passed.
    pub fn write_pending_delta(&mut self, out: &mut Vec<u8>)
        ensures
            final(self).state() == old(self).state().written(),
            final(self).running() == old(self).running(),
            final(out)@ == old(out)@ + vlq_bytes(old(self).state().pending % 0x1000_0000),
    {
        write_varlen(self.pending_delta, out);
        self.pending_delta = 0;
        assert(self.state().active =~= old(self).state().active);
    }

    /// Writes a message after the time that has passed.
    fn write_message(&mut self, status: u8, data1: u8, data2: Option<u8>, out: &mut Vec<u8>)
        ensures
            final(self).state() == old(self).state().written(),
            ({
                let kind = RawEventKind::Midi { status, data1, data2 };
                let event = RawEvent { delta: old(self).state().pending, kind };
                &&& final(out)@ == old(out)@ + raw_bytes(event, old(self).running())
                &&& final(self).running() == running_after(kind)
            }),
    {
        self.write_pending_delta(out);
        self.write_midi(status, data1, data2, out);
        let ghost kind: RawEventKind<Seq<u8>> = RawEventKind::Midi { status, data1, data2 };
        let ghost event = RawEvent { delta: old(self).state().pending, kind };
        assert(out@ =~= old(out)@ + raw_bytes(event, old(self).running()));
        assert(self.state().active =~= old(self).state().active);
    }

    /// Writes a message, without its status where that may be left out. A message
    /// without data always has its status.
    pub fn write_midi(&mut self, status: u8, data1: u8, data2: Option<u8>, out: &mut Vec<u8>)
        ensures
            final(self).state() == old(self).state(),
            ({
                let kind = RawEventKind::Midi { status, data1, data2 };
                &&& final(out)@ == old(out)@ + kind_bytes(kind, old(self).running())
                &&& final(self).running() == running_after(kind)
            }),
    {
        let known: bool = match self.running_status {
            Some(running) => running == status,
            None => false,
        };
        if status > 0xF3 || status == 0xF0 {
            out.push(status);
            self.running_status = None;
        } else {
            if !known {
                out.push(status);
                self.running_status = Some(status);
            }
            out.push(data1);
            if let Some(d) = data2 {
                out.push(d);
            }
        }
        let ghost kind: RawEventKind<Seq<u8>> = RawEventKind::Midi { status, data1, data2 };
        assert(out@ =~= old(out)@ + kind_bytes(kind, old(self).running()));
        assert(self.state().active =~= old(self).state().active);
    }

    /// Writes a note, after the end of the one that still sounds where there is one.
    pub fn handle_note_on(&mut self, ch: u8, key: u8, vel: u8, out: &mut Vec<u8>)
        requires
            ch < 16,
            key < 128,
        ensures
            ({
                let events = old(self).state().strike_out(ch, key, vel);
                &&& final(out)@ == old(out)@ + all_bytes(events, old(self).running())
                &&& final(self).running() == running_behind(events, old(self).running())
            }),
            final(self).state() == old(self).state().struck(ch, key),
    {
        let status: u8 = 0x90 + ch;
        let ghost before = *self;
        let ghost events = self.state().strike_out(ch, key, vel);
        assert(self.state().active[ch as int] == self.active_notes@[ch as int]@);
        if self.active_notes[ch as usize][key as usize] {
            self.write_message(status, key, Some(0), out);
            let ghost middle = self.running();
            self.write_message(status, key, Some(vel), out);
            proof {
                lemma_bytes_one(events[0], before.running());
                lemma_bytes_one(events[1], middle);
                lemma_bytes_joined(seq![events[0]], seq![events[1]], before.running());
                assert(seq![events[0]] + seq![events[1]] =~= events);
                assert(out@ =~= old(out)@ + all_bytes(events, before.running()));
                let active = before.state().active;
                assert(active.update(ch as int, active[ch as int].update(key as int, true))
                    =~= active) by {
                    assert(active[ch as int].update(key as int, true) =~= active[ch as int]);
                }
            }
        } else {
            self.active_notes[ch as usize][key as usize] = true;
            assert(self.state().active =~= before.state().with_key(ch, key, true).active);
            self.write_message(status, key, Some(vel), out);
            proof {
                lemma_bytes_one(events[0], before.running());
                assert(seq![events[0]] =~= events);
            }
        }
    }

    /// Writes the end of a note that sounds.
    pub fn handle_note_off(&mut self, ch: u8, key: u8, vel: u8, out: &mut Vec<u8>)
        requires
            ch < 16,
            key < 128,
        ensures
            ({
                let events = old(self).state().end_out(ch, key, vel);
                &&& final(out)@ == old(out)@ + all_bytes(events, old(self).running())
                &&& final(self).running() == running_behind(events, old(self).running())
            }),
            final(self).state() == old(self).state().ended(ch, key),
    {
        let ghost before = *self;
        let ghost events = self.state().end_out(ch, key, vel);
        assert(self.state().active[ch as int] == self.active_notes@[ch as int]@);
        if self.active_notes[ch as usize][key as usize] {
            self.active_notes[ch as usize][key as usize] = false;
            assert(self.state().active =~= before.state().with_key(ch, key, false).active);
            let status: u8 = if vel == 0 {
                0x90 + ch
            } else {
                0x80 + ch
            };
            self.write_message(status, key, Some(vel), out);
            proof {
                lemma_bytes_one(events[0], before.running());
                assert(seq![events[0]] =~= events);
            }
        } else {
            assert(out@ =~= old(out)@ + all_bytes(events, before.running()));
        }
    }

    /// Writes an event that is no message, after the time that has passed.
    fn write_data(&mut self, status: u8, type_byte: Option<u8>, data: &Vec<u8>, out: &mut Vec<u8>)
        ensures
            final(self).state() == old(self).state().written(),
            final(self).running() is None,
            final(out)@ == old(out)@ + vlq_bytes(old(self).state().pending % 0x1000_0000) + seq![
                status,
            ] + (match type_byte {
                Some(t) => seq![t],
                None => seq![],
            }) + with_length(data@),
    {
        self.write_pending_delta(out);
        out.push(status);
        if let Some(t) = type_byte {
            out.push(t);
        }
        let len: u32 = (data.len() % 0x1000_0000) as u32;
        write_varlen(len, out);
        push_range(out, data.as_slice(), 0, data.len());
        self.running_status = None;
        assert(data@.subrange(0, data@.len() as int) =~= data@);
        assert(self.state().active =~= old(self).state().active);
        assert(out@ =~= old(out)@ + vlq_bytes(old(self).state().pending % 0x1000_0000) + seq![
            status,
        ] + (match type_byte {
            Some(t) => seq![t],
            None => seq![],
        }) + with_length(data@));
    }

    /// Writes what is to be written for an event.
    pub fn write_event(&mut self, event: &RawEvent<Vec<u8>>, out: &mut Vec<u8>)
        requires
            narrow(event.kind@),
        ensures
            ({
                let events = old(self).state().out(event@);
                &&& final(out)@ == old(out)@ + all_bytes(events, old(self).running())
                &&& final(self).running() == running_behind(events, old(self).running())
            }),
            final(self).state() == old(self).state().next(event@),
    {
        let ghost events = self.state().out(event@);
        let ghost running = self.running();
        self.accumulate_delta(event.delta);
        let ghost now = self.state();
        proof {
            lemma_bytes_one(RawEvent { delta: now.pending, kind: event.kind@ }, running);
        }
        match &event.kind {
            RawEventKind::Midi { status, data1, data2 } => {
                let status: u8 = *status;
                let key: u8 = *data1;
                let kind: u8 = status / 16;
                let ch: u8 = status % 16;
                let vel: u8 = match data2 {
                    Some(v) => *v,
                    None => 0,
                };
                if kind == 0x9 {
                    if vel >= MIN_VELOCITY {
                        self.handle_note_on(ch, key, vel, out);
                    } else if vel == 0 {
                        self.handle_note_off(ch, key, 0, out);
                    } else {
                        assert(out@ =~= old(out)@ + all_bytes(events, running));
                    }
                } else if kind == 0x8 {
                    self.handle_note_off(ch, key, vel, out);
                } else {
                    self.write_message(status, key, *data2, out);
                }
            },
            RawEventKind::SysEx { data } => {
                self.write_data(0xF0, None, data, out);
                assert(out@ =~= old(out)@ + all_bytes(events, running));
            },
            RawEventKind::Escape { data } => {
                self.write_data(0xF7, None, data, out);
                assert(out@ =~= old(out)@ + all_bytes(events, running));
            },
            RawEventKind::Meta { type_byte, data } => {
                self.write_data(0xFF, Some(*type_byte), data, out);
                assert(out@ =~= old(out)@ + all_bytes(events, running));
            },
        }
    }
}

/// What is written for a first event and for the others.
proof fn lemma_fixed_first(
    state: FixState,
    event: RawEvent<Seq<u8>>,
    rest: Seq<RawEvent<Seq<u8>>>,
    running: Option<u8>,
)
    ensures
        all_bytes(state.fixed(seq![event] + rest), running) == all_bytes(state.out(event), running)
            + all_bytes(state.next(event).fixed(rest), running_behind(state.out(event), running)),
{
    let events = seq![event] + rest;
    assert(events.drop_first() =~= rest);
    assert(events[0] == event);
    lemma_bytes_joined(state.out(event), state.next(event).fixed(rest), running);
}

/// The chunk of a track that is written again. Where an error ends the track, the
/// length stays 0 and the content goes as far as the error.
pub open spec fn track_chunk(d: Seq<u8>) -> Seq<u8> {
    let content = track_content(d);
    be32_bytes(MTRK) + be32_bytes(
        if raw_error(d, None) is None {
            (content.len() % 0x1_0000_0000) as u32
        } else {
            0
        },
    ) + content
}

/// Writes a track again, as a chunk.
///
/// All keys that are looked at must be below 128; [`is_track_narrow`] tells.
pub fn process_track(data: &[u8], out: &mut Vec<u8>) -> (r: Result<(), Error>)
    requires
        all_narrow(raw_events(data@, None)),
    ensures
        final(out)@ == old(out)@ + track_chunk(data@),
        match raw_error(data@, None) {
            None => r is Ok,
            Some(e) => r == Err::<(), Error>(e),
        },
{
    let ghost given = out@;
    push_be32(out, MTRK);
    let len_pos: usize = out.len();
    push_be32(out, 0);
    let ghost head = out@;
    let content_start: usize = out.len();
    proof {
        lemma_be32_round_trip(MTRK);
        lemma_be32_round_trip(0);
    }
    let mut parser = TrackParser::new(data);
    let mut writer = TrackWriterState::new();
    let ghost all = raw_events(data@, None);
    let ghost content = track_content(data@);
    assert(head + content =~= out@ + content);
    loop
        invariant_except_break
            all_narrow(raw_events(parser.rest(), parser.running())),
            head + content == out@ + all_bytes(
                writer.state().fixed(raw_events(parser.rest(), parser.running())),
                writer.running(),
            ),
            raw_error(parser.rest(), parser.running()) == raw_error(data@, None),
        invariant
            content == track_content(data@),
            head == given + be32_bytes(MTRK) + be32_bytes(0),
            given == old(out)@,
        ensures
            out@ == head + content,
            raw_error(data@, None) is None,
        decreases parser.rest().len(),
    {
        let ghost events = raw_events(parser.rest(), parser.running());
        let ghost state = writer.state();
        let ghost running = writer.running();
        let ghost written = out@;
        proof {
            lemma_raw_step(parser.rest(), parser.running());
        }
        match parser.next_event() {
            None => {
                assert(out@ + all_bytes(seq![], running) =~= out@);
                break;
            },
            Some(Err(e)) => {
                assert(out@ + all_bytes(seq![], running) =~= out@);
                assert(out@ =~= given + track_chunk(data@));
                return Err(e);
            },
            Some(Ok(event)) => {
                let ghost rest = raw_events(parser.rest(), parser.running());
                assert(events[0] == event@);
                writer.write_event(&event, out);
                proof {
                    lemma_fixed_first(state, event@, rest, running);
                    assert forall|i: int| 0 <= i < rest.len() implies narrow(
                        (#[trigger] rest[i]).kind,
                    ) by {
                        assert(rest[i] == events[i + 1]);
                    }
                    assert(out@ + all_bytes(writer.state().fixed(rest), writer.running())
                        =~= written + (all_bytes(state.out(event@), running) + all_bytes(
                        writer.state().fixed(rest),
                        writer.running(),
                    )));
                }
            },
        }
    }
    let new_len: u32 = ((out.len() - content_start) as u64 % 0x1_0000_0000) as u32;
    set_be32(out, len_pos, new_len);
    proof {
        lemma_be32_round_trip(new_len);
        assert(content.len() % 0x1_0000_0000 == new_len);
        assert(out@ =~= given + track_chunk(data@));
    }
    Ok(())
}

/// Writes the four bytes of a number over those at `at`, the high byte first.
fn set_be32(out: &mut Vec<u8>, at: usize, v: u32)
    requires
        at + 4 <= old(out)@.len(),
    ensures
        final(out)@ == old(out)@.take(at as int) + be32_bytes(v) + old(out)@.skip(at + 4),
{
    proof {
        reveal(be32_bytes);
    }
    assert(out.len() == out@.len());
    out[at] = (v / 0x100_0000) as u8;
    out[at + 1] = (v / 0x1_0000 % 0x100) as u8;
    out[at + 2] = (v / 0x100 % 0x100) as u8;
    out[at + 3] = (v % 0x100) as u8;
    assert(out@ =~= old(out)@.take(at as int) + be32_bytes(v) + old(out)@.skip(at + 4));
}

/// The chunks from `at` on written again, and the error that ends them. Chunks
/// other than tracks are left out.
pub open spec fn chunks_out(s: Seq<u8>, at: int) -> (Seq<u8>, Option<Error>)
    decreases
        if s.len() > at {
            s.len() - at
        } else {
            0
        },
{
    if at < 0 || at + 8 > s.len() {
        (seq![], None)
    } else {
        let next = at + 8 + be32(s, at + 4);
        if named(s, at, MTRK) {
            let d = s.subrange(at + 8, lesser(next, s.len() as int));
            match raw_error(d, None) {
                Some(e) => (track_chunk(d), Some(e)),
                None => {
                    let rest = chunks_out(s, next);
                    (track_chunk(d) + rest.0, rest.1)
                },
            }
        } else {
            chunks_out(s, next)
        }
    }
}

/// A file written again, and the error that ends it.
pub open spec fn file_out(s: Seq<u8>) -> (Seq<u8>, Option<Error>) {
    if s.len() < 14 {
        (seq![], Some(Error::UnexpectedEof))
    } else if !named(s, 0, MTHD) {
        (seq![], Some(Error::InputHeader))
    } else if be32(s, 4) < 6 {
        (seq![], Some(Error::InputHeaderLength))
    } else {
        let chunks = chunks_out(s, 8 + be32(s, 4));
        (be32_bytes(MTHD) + be32_bytes(6) + s.subrange(8, 14) + chunks.0, chunks.1)
    }
}

/// Whether all keys that are looked at in the tracks from `at` on, as far as
/// these are read, are among the 128 keys.
pub open spec fn chunks_narrow(s: Seq<u8>, at: int) -> bool
    decreases
        if s.len() > at {
            s.len() - at
        } else {
            0
        },
{
    if at < 0 || at + 8 > s.len() {
        true
    } else {
        let next = at + 8 + be32(s, at + 4);
        if named(s, at, MTRK) {
            let d = s.subrange(at + 8, lesser(next, s.len() as int));
            &&& all_narrow(raw_events(d, None))
            &&& raw_error(d, None) is None ==> chunks_narrow(s, next)
        } else {
            chunks_narrow(s, next)
        }
    }
}

/// Whether all keys that are looked at in a file are among the 128 keys.
pub open spec fn file_narrow(s: Seq<u8>) -> bool {
    s.len() >= 14 && named(s, 0, MTHD) && be32(s, 4) >= 6 ==> chunks_narrow(s, 8 + be32(s, 4))
}

/// Writes a file again so that its notes do not overlap.
///
/// What was written before an error stays written. All keys that are looked at
/// must be below 128; [`is_file_narrow`] tells.
pub fn process_midi(data: &[u8], out: &mut Vec<u8>) -> (r: Result<(), Error>)
    requires
        file_narrow(data@),
    ensures
        final(out)@ == old(out)@ + file_out(data@).0,
        match file_out(data@).1 {
            None => r is Ok,
            Some(e) => r == Err::<(), Error>(e),
        },
{
    let len: usize = data.len();
    let ghost given = out@;
    assert(given + seq![] =~= given);
    if len < 14 {
        return Err(Error::UnexpectedEof);
    }
    if !is_named(data, 0, MTHD) {
        return Err(Error::InputHeader);
    }
    let header_len: u32 = read_be32(data, 4);
    if header_len < 6 {
        return Err(Error::InputHeaderLength);
    }
    push_be32(out, MTHD);
    push_be32(out, 6);
    push_range(out, data, 8, 14);
    let mut at: usize = clip(8, header_len, len);
    let ghost start = 8 + be32(data@, 4);
    proof {
        lemma_chunks_end(data@, start);
        lemma_chunks_end(data@, at as int);
        assert(out@ + chunks_out(data@, start).0 =~= given + file_out(data@).0);
    }
    while len - at >= 8
        invariant
            len == data@.len(),
            at <= len,
            given == old(out)@,
            chunks_narrow(data@, at as int),
            out@ + chunks_out(data@, at as int).0 == given + file_out(data@).0,
            file_out(data@).1 == chunks_out(data@, at as int).1,
        decreases len - at,
    {
        let chunk_len: u32 = read_be32(data, at + 4);
        let stop: usize = clip(at + 8, chunk_len, len);
        let ghost next = at + 8 + chunk_len;
        proof {
            lemma_chunks_end(data@, next);
            lemma_chunks_end(data@, stop as int);
        }
        if is_named(data, at, MTRK) {
            let ghost before = out@;
            let track = &data[at + 8..stop];
            match process_track(track, out) {
                Err(e) => {
                    assert(out@ =~= before + track_chunk(track@));
                    return Err(e);
                },
                Ok(()) => {
                    assert(out@ + chunks_out(data@, next).0 =~= before + (track_chunk(track@)
                        + chunks_out(data@, next).0));
                },
            }
        }
        at = stop;
    }
    assert(out@ + seq![] =~= out@);
    Ok(())
}

/// There are no chunks from the end on.
proof fn lemma_chunks_end(s: Seq<u8>, at: int)
    ensures
        at >= s.len() ==> chunks_out(s, at) == (Seq::<u8>::empty(), None::<Error>) && chunks_narrow(
            s,
            at,
        ),
{
}

/// Whether all keys that are looked at in a track are among the 128 keys, and, if
/// so, whether the track comes to no error.
pub fn is_track_narrow(data: &[u8]) -> (r: (bool, bool))
    ensures
        r.0 == all_narrow(raw_events(data@, None)),
        r.0 ==> r.1 == (raw_error(data@, None) is None),
{
    let mut parser = TrackParser::new(data);
    loop
        invariant
            all_narrow(raw_events(data@, None)) == all_narrow(
                raw_events(parser.rest(), parser.running()),
            ),
            raw_error(data@, None) == raw_error(parser.rest(), parser.running()),
        decreases parser.rest().len(),
    {
        let ghost events = raw_events(parser.rest(), parser.running());
        proof {
            lemma_raw_step(parser.rest(), parser.running());
        }
        match parser.next_event() {
            None => return (true, true),
            Some(Err(_)) => return (true, false),
            Some(Ok(event)) => {
                let ghost rest = raw_events(parser.rest(), parser.running());
                proof {
                    lemma_narrow_first(event@, rest);
                }
                if !is_narrow(&event) {
                    return (false, false);
                }
            },
        }
    }
}

proof fn lemma_narrow_first(event: RawEvent<Seq<u8>>, rest: Seq<RawEvent<Seq<u8>>>)
    ensures
        all_narrow(seq![event] + rest) == (narrow(event.kind) && all_narrow(rest)),
{
    let all = seq![event] + rest;
    if all_narrow(all) {
        assert(narrow(all[0].kind));
        assert forall|i: int| 0 <= i < rest.len() implies narrow((#[trigger] rest[i]).kind) by {
            assert(all[i + 1] == rest[i]);
        }
    }
}

/// Whether the key of an event, where one is looked at, is one of the 128 keys.
fn is_narrow(event: &RawEvent<Vec<u8>>) -> (r: bool)
    ensures
        r == narrow(event.kind@),
{
    match &event.kind {
        RawEventKind::Midi { status, data1, data2 } => {
            let kind: u8 = *status / 16;
            let vel: u8 = match data2 {
                Some(v) => *v,
                None => 0,
            };
            let looked_at: bool = kind == 0x8 || (kind == 0x9 && (vel >= MIN_VELOCITY || vel == 0));
            !looked_at || *data1 < 128
        },
        _ => true,
    }
}

/// Whether all keys that are looked at in a file are among the 128 keys. Other
/// files cannot be processed.
pub fn is_file_narrow(data: &[u8]) -> (r: bool)
    ensures
        r == file_narrow(data@),
{
    let len: usize = data.len();
    if len < 14 || !is_named(data, 0, MTHD) {
        return true;
    }
    let header_len: u32 = read_be32(data, 4);
    if header_len < 6 {
        return true;
    }
    let mut at: usize = clip(8, header_len, len);
    proof {
        lemma_chunks_end(data@, 8 + be32(data@, 4));
        lemma_chunks_end(data@, at as int);
    }
    while len - at >= 8
        invariant
            len == data@.len(),
            at <= len,
            file_narrow(data@) == chunks_narrow(data@, at as int),
        decreases len - at,
    {
        let chunk_len: u32 = read_be32(data, at + 4);
        let stop: usize = clip(at + 8, chunk_len, len);
        proof {
            lemma_chunks_end(data@, at + 8 + chunk_len);
            lemma_chunks_end(data@, stop as int);
        }
        if is_named(data, at, MTRK) {
            let (narrow, whole) = is_track_narrow(&data[at + 8..stop]);
            if !narrow {
                return false;
            }
            if !whole {
                return true;
            }
        }
        at = stop;
    }
    true
}

/// Whether no note is struck while it sounds, none is too quiet, and only notes
/// that sound end.
pub open spec fn clean(events: Seq<RawEvent<Seq<u8>>>, state: FixState) -> bool
    decreases events.len(),
{
    events.len() > 0 ==> match role(events[0].kind) {
        Role::Strike { channel, key, .. } => !state.sounds(channel, key) && clean(
            events.drop_first(),
            state.with_key(channel, key, true),
        ),
        Role::End { channel, key, .. } => state.sounds(channel, key) && clean(
            events.drop_first(),
            state.with_key(channel, key, false),
        ),
        Role::Quiet => false,
        Role::Other => clean(events.drop_first(), state),
    }
}

/// Whether a state knows all keys.
spec fn full(state: FixState) -> bool {
    state.active.len() == 16 && forall|c: int|
        0 <= c < 16 ==> (#[trigger] state.active[c]).len() == 128
}

/// Whether two states agree on what sounds.
spec fn same_keys(a: FixState, b: FixState) -> bool {
    a.active == b.active
}

proof fn lemma_note_roles(channel: u8, key: u8, velocity: u8)
    requires
        channel < 16,
    ensures
        velocity >= MIN_VELOCITY ==> role(note_on(channel, key, velocity)) == (Role::Strike {
            channel,
            key,
            velocity,
        }),
        role(note_on(channel, key, 0)) == (Role::End { channel, key, velocity: 0 }),
        role(note_end(channel, key, velocity)) == (Role::End { channel, key, velocity }),
{
}

proof fn lemma_clean(state: FixState, events: Seq<RawEvent<Seq<u8>>>, keys: FixState)
    requires
        full(state),
        same_keys(state, keys),
        all_narrow(events),
    ensures
        clean(state.fixed(events), keys),
    decreases events.len(),
{
    if events.len() > 0 {
        let event = events[0];
        let rest = events.drop_first();
        let out = state.out(event);
        let next = state.next(event);
        let after = next.fixed(rest);
        let all = state.fixed(events);
        assert(narrow(event.kind));
        assert forall|i: int| 0 <= i < rest.len() implies narrow((#[trigger] rest[i]).kind) by {
            assert(rest[i] == events[i + 1]);
        }
        match role(event.kind) {
            Role::Strike { channel, key, velocity } => {
                lemma_note_roles(channel, key, velocity);
                if state.sounds(channel, key) {
                    let off = keys.with_key(channel, key, false);
                    let on = off.with_key(channel, key, true);
                    assert(on.active[channel as int] =~= next.active[channel as int]);
                    assert(on.active =~= next.active);
                    lemma_clean(next, rest, on);
                    assert(all.drop_first() =~= seq![out[1]] + after);
                    assert((seq![out[1]] + after).drop_first() =~= after);
                    assert(all[0] == out[0]);
                    assert(all.drop_first()[0] == out[1]);
                    assert(clean(all.drop_first(), off));
                } else {
                    lemma_clean(next, rest, keys.with_key(channel, key, true));
                    assert(all.drop_first() =~= after);
                    assert(all[0] == out[0]);
                }
            },
            Role::End { channel, key, velocity } => {
                lemma_note_roles(channel, key, velocity);
                if state.sounds(channel, key) {
                    lemma_clean(next, rest, keys.with_key(channel, key, false));
                    assert(all.drop_first() =~= after);
                    assert(all[0] == out[0]);
                } else {
                    lemma_clean(next, rest, keys);
                    assert(all =~= after);
                }
            },
            Role::Quiet => {
                lemma_clean(next, rest, keys);
                assert(all =~= after);
            },
            Role::Other => {
                lemma_clean(next, rest, keys);
                assert(all.drop_first() =~= after);
                assert(all[0] == out[0]);
            },
        }
    }
}

/// In a track that was written again, no note is struck while it sounds, no note
/// has a velocity from 1 to 10, and only notes that sound end.
pub proof fn lemma_no_overlap(events: Seq<RawEvent<Seq<u8>>>)
    requires
        all_narrow(events),
    ensures
        clean(FixState::start().fixed(events), FixState::start()),
{
    lemma_clean(FixState::start(), events, FixState::start());
}

/// The loud notes and the events that are no notes, with the ticks at which they
/// happen, modulo 2^32.
pub open spec fn kept(events: Seq<RawEvent<Seq<u8>>>, tick: u32) -> Seq<
    (u32, RawEventKind<Seq<u8>>),
>
    decreases events.len(),
{
    if events.len() == 0 {
        seq![]
    } else {
        let now = wrapped(tick, events[0].delta);
        let rest = kept(events.drop_first(), now);
        match role(events[0].kind) {
            Role::Strike { .. } => seq![(now, events[0].kind)] + rest,
            Role::Other => seq![(now, events[0].kind)] + rest,
            _ => rest,
        }
    }
}

/// The first event by itself, and the others.
proof fn lemma_kept_first(event: RawEvent<Seq<u8>>, rest: Seq<RawEvent<Seq<u8>>>, tick: u32)
    ensures
        kept(seq![event] + rest, tick) == ({
            let now = wrapped(tick, event.delta);
            match role(event.kind) {
                Role::Strike { .. } => seq![(now, event.kind)] + kept(rest, now),
                Role::Other => seq![(now, event.kind)] + kept(rest, now),
                _ => kept(rest, now),
            }
        }),
{
    let events = seq![event] + rest;
    assert(events.drop_first() =~= rest);
    assert(events[0] == event);
}

/// What is written for a loud note keeps it, at its tick.
proof fn lemma_kept_strike(
    state: FixState,
    event: RawEvent<Seq<u8>>,
    tick: u32,
    after: Seq<RawEvent<Seq<u8>>>,
)
    requires
        role(event.kind) is Strike,
    ensures
        ({
            let t = wrapped(tick, state.wait(event.delta).pending);
            &&& state.next(event).pending == 0
            &&& kept(state.out(event) + after, tick) == seq![(t, event.kind)] + kept(after, t)
        }),
{
    let now = state.wait(event.delta);
    let out = state.out(event);
    let t = wrapped(tick, now.pending);
    lemma_wrapped(t, 0, 0);
    if let Role::Strike { channel, key, velocity } = role(event.kind) {
        lemma_note_roles(channel, key, velocity);
        assert(event.kind == note_on(channel, key, velocity));
        if now.sounds(channel, key) {
            lemma_kept_first(out[1], after, t);
            lemma_kept_first(out[0], seq![out[1]] + after, tick);
            assert(out + after =~= seq![out[0]] + (seq![out[1]] + after));
        } else {
            lemma_kept_first(out[0], after, tick);
            assert(out =~= seq![out[0]]);
        }
    }
}

/// What is written for the end of a note, or for a quiet note, takes the time that
/// is to be written, or nothing is written.
proof fn lemma_kept_end(
    state: FixState,
    event: RawEvent<Seq<u8>>,
    tick: u32,
    after: Seq<RawEvent<Seq<u8>>>,
)
    requires
        role(event.kind) is End || role(event.kind) is Quiet,
    ensures
        ({
            let now = state.wait(event.delta);
            let out = state.out(event);
            let next = state.next(event);
            ||| out.len() == 0 && next == now
            ||| next.pending == 0 && kept(out + after, tick) == kept(
                after,
                wrapped(tick, now.pending),
            )
        }),
{
    let now = state.wait(event.delta);
    let out = state.out(event);
    if let Role::End { channel, key, velocity } = role(event.kind) {
        lemma_note_roles(channel, key, velocity);
        if now.sounds(channel, key) {
            lemma_kept_first(out[0], after, tick);
            assert(out =~= seq![out[0]]);
        }
    }
}

proof fn lemma_kept(state: FixState, events: Seq<RawEvent<Seq<u8>>>, tick: u32)
    ensures
        kept(state.fixed(events), tick) == kept(events, wrapped(tick, state.pending)),
    decreases events.len(),
{
    if events.len() > 0 {
        let event = events[0];
        let rest = events.drop_first();
        let out = state.out(event);
        let now = state.wait(event.delta);
        let next = state.next(event);
        let after = next.fixed(rest);
        let t = wrapped(tick, now.pending);
        lemma_wrapped(tick, state.pending, event.delta);
        lemma_wrapped(t, 0, 0);
        lemma_kept_first(event, rest, wrapped(tick, state.pending));
        assert(events =~= seq![event] + rest);
        if role(event.kind) is Other {
            lemma_kept(next, rest, t);
            lemma_kept_first(out[0], after, tick);
            assert(out =~= seq![out[0]]);
        } else if role(event.kind) is Strike {
            lemma_kept_strike(state, event, tick, after);
            lemma_kept(next, rest, t);
        } else {
            lemma_kept_end(state, event, tick, after);
            if out.len() == 0 && next == now {
                lemma_kept(next, rest, tick);
                assert(out + after =~= after);
            } else {
                lemma_kept(next, rest, t);
            }
        }
    }
}

/// Writing a track again keeps every loud note and every event that is no note, in
/// their order and at their ticks, counted modulo 2^32.
pub proof fn lemma_events_kept(events: Seq<RawEvent<Seq<u8>>>)
    ensures
        kept(FixState::start().fixed(events), 0) == kept(events, 0),
{
    lemma_kept(FixState::start(), events, 0);
    lemma_wrapped(0, 0, 0);
}

/// All events with the ticks at which they happen, modulo 2^32.
pub open spec fn placed(events: Seq<RawEvent<Seq<u8>>>, tick: u32) -> Seq<
    (u32, RawEventKind<Seq<u8>>),
>
    decreases events.len(),
{
    if events.len() == 0 {
        seq![]
    } else {
        let now = wrapped(tick, events[0].delta);
        seq![(now, events[0].kind)] + placed(events.drop_first(), now)
    }
}

/// The kinds of some events, all at one tick.
pub open spec fn all_at(tick: u32, events: Seq<RawEvent<Seq<u8>>>) -> Seq<
    (u32, RawEventKind<Seq<u8>>),
> {
    Seq::new(events.len(), |i: int| (tick, events[i].kind))
}

/// What is written for some events, all that is written for an event at the tick
/// of that event, modulo 2^32.
pub open spec fn placed_by_source(
    state: FixState,
    events: Seq<RawEvent<Seq<u8>>>,
    tick: u32,
) -> Seq<(u32, RawEventKind<Seq<u8>>)>
    decreases events.len(),
{
    if events.len() == 0 {
        seq![]
    } else {
        let now = wrapped(tick, events[0].delta);
        all_at(now, state.out(events[0])) + placed_by_source(
            state.next(events[0]),
            events.drop_first(),
            now,
        )
    }
}

proof fn lemma_placed_first(event: RawEvent<Seq<u8>>, rest: Seq<RawEvent<Seq<u8>>>, tick: u32)
    ensures
        placed(seq![event] + rest, tick) == seq![(wrapped(tick, event.delta), event.kind)]
            + placed(rest, wrapped(tick, event.delta)),
{
    let events = seq![event] + rest;
    assert(events.drop_first() =~= rest);
    assert(events[0] == event);
}

/// What is written for an event stands at one tick, and takes the time that is to
/// be written, or nothing is written.
proof fn lemma_placed_out(
    state: FixState,
    event: RawEvent<Seq<u8>>,
    tick: u32,
    after: Seq<RawEvent<Seq<u8>>>,
)
    ensures
        ({
            let now = state.wait(event.delta);
            let out = state.out(event);
            let t = wrapped(tick, now.pending);
            ||| out.len() == 0 && state.next(event).pending == now.pending
            ||| state.next(event).pending == 0 && placed(out + after, tick) == all_at(t, out)
                + placed(after, t)
        }),
{
    let now = state.wait(event.delta);
    let out = state.out(event);
    let t = wrapped(tick, now.pending);
    lemma_wrapped(t, 0, 0);
    if out.len() == 1 {
        lemma_placed_first(out[0], after, tick);
        assert(out =~= seq![out[0]]);
        assert(all_at(t, out) =~= seq![(t, out[0].kind)]);
    } else if out.len() == 2 {
        lemma_placed_first(out[1], after, t);
        lemma_placed_first(out[0], seq![out[1]] + after, tick);
        assert(out + after =~= seq![out[0]] + (seq![out[1]] + after));
        assert(all_at(t, out) + placed(after, t) =~= seq![(t, out[0].kind)] + (seq![
            (t, out[1].kind),
        ] + placed(after, t)));
    }
}

proof fn lemma_placed(state: FixState, events: Seq<RawEvent<Seq<u8>>>, tick: u32)
    ensures
        placed(state.fixed(events), tick) == placed_by_source(
            state,
            events,
            wrapped(tick, state.pending),
        ),
    decreases events.len(),
{
    if events.len() > 0 {
        let event = events[0];
        let rest = events.drop_first();
        let out = state.out(event);
        let now = state.wait(event.delta);
        let next = state.next(event);
        let after = next.fixed(rest);
        let t = wrapped(tick, now.pending);
        lemma_wrapped(tick, state.pending, event.delta);
        lemma_wrapped(t, 0, 0);
        lemma_placed_out(state, event, tick, after);
        if out.len() == 0 && next.pending == now.pending {
            lemma_placed(next, rest, tick);
            assert(out + after =~= after);
            let others = placed_by_source(next, rest, t);
            assert(all_at(t, out) + others =~= others);
        } else {
            lemma_placed(next, rest, t);
        }
    }
}

/// Every event of a track that is written again, the end of a note too, stands at
/// the tick of the event that it was written for, counted modulo 2^32.
pub proof fn lemma_events_in_place(events: Seq<RawEvent<Seq<u8>>>)
    ensures
        placed(FixState::start().fixed(events), 0) == placed_by_source(
            FixState::start(),
            events,
            0,
        ),
{
    lemma_placed(FixState::start(), events, 0);
    lemma_wrapped(0, 0, 0);
}

/// Whether a note is written as the rewriting of a track writes it.
spec fn canonical(kind: RawEventKind<Seq<u8>>) -> bool {
    match role(kind) {
        Role::Strike { channel, key, velocity } => kind == note_on(channel, key, velocity),
        Role::End { channel, key, velocity } => kind == note_end(channel, key, velocity),
        _ => true,
    }
}

spec fn all_canonical(events: Seq<RawEvent<Seq<u8>>>) -> bool {
    forall|i: int| 0 <= i < events.len() ==> canonical((#[trigger] events[i]).kind)
}

proof fn lemma_canonical(state: FixState, events: Seq<RawEvent<Seq<u8>>>)
    ensures
        all_canonical(state.fixed(events)),
    decreases events.len(),
{
    if events.len() > 0 {
        let event = events[0];
        let out = state.out(event);
        let after = state.next(event).fixed(events.drop_first());
        lemma_canonical(state.next(event), events.drop_first());
        assert(all_canonical(out)) by {
            match role(event.kind) {
                Role::Strike { channel, key, velocity } => {
                    lemma_note_roles(channel, key, velocity);
                },
                Role::End { channel, key, velocity } => {
                    lemma_note_roles(channel, key, velocity);
                },
                _ => {},
            }
        }
        let all = out + after;
        assert forall|i: int| 0 <= i < all.len() implies canonical((#[trigger] all[i]).kind) by {
            if i < out.len() {
                assert(all[i] == out[i]);
            } else {
                assert(all[i] == after[i - out.len()]);
            }
        }
    }
}

proof fn lemma_clean_unchanged(state: FixState, events: Seq<RawEvent<Seq<u8>>>, keys: FixState)
    requires
        state.pending == 0,
        same_keys(state, keys),
        clean(events, keys),
        all_canonical(events),
    ensures
        state.fixed(events) == events,
    decreases events.len(),
{
    if events.len() > 0 {
        let event = events[0];
        let rest = events.drop_first();
        let next = state.next(event);
        assert(canonical(event.kind));
        assert forall|i: int| 0 <= i < rest.len() implies canonical((#[trigger] rest[i]).kind) by {
            assert(rest[i] == events[i + 1]);
        }
        lemma_wrapped(event.delta, 0, 0);
        let after = match role(event.kind) {
            Role::Strike { channel, key, .. } => keys.with_key(channel, key, true),
            Role::End { channel, key, .. } => keys.with_key(channel, key, false),
            _ => keys,
        };
        lemma_clean_unchanged(next, rest, after);
        assert(state.out(event) =~= seq![event]);
        assert(seq![event] + rest =~= events);
    } else {
        assert(state.fixed(events) =~= events);
    }
}

/// Writing a track again that was written again changes none of its events.
pub proof fn lemma_fix_twice(events: Seq<RawEvent<Seq<u8>>>)
    requires
        all_narrow(events),
    ensures
        FixState::start().fixed(FixState::start().fixed(events)) == FixState::start().fixed(events),
{
    lemma_no_overlap(events);
    lemma_canonical(FixState::start(), events);
    lemma_clean_unchanged(
        FixState::start(),
        FixState::start().fixed(events),
        FixState::start(),
    );
}

/// Whether a status is that of a channel message or of a system message that has no
/// length, with just the data that it takes. A message without data has 0 there.
pub open spec fn is_message(status: u8, data1: u8, data2: Option<u8>) -> bool {
    let count = if status < 0xF0 {
        data_count(status)
    } else {
        system_count(status)
    };
    &&& status >= 0x80 && status != 0xF0 && status != 0xF7 && status != 0xFF
    &&& data2 is Some <==> count == 2
    &&& count == 0 ==> data1 == 0
}

/// Whether an event has just the data that it takes, and the length of its data
/// fits 28 bits.
pub open spec fn readable(kind: RawEventKind<Seq<u8>>) -> bool {
    match kind {
        RawEventKind::Midi { status, data1, data2 } => is_message(status, data1, data2),
        RawEventKind::SysEx { data } => data.len() < 0x1000_0000,
        RawEventKind::Escape { data } => data.len() < 0x1000_0000,
        RawEventKind::Meta { data, .. } => data.len() < 0x1000_0000,
    }
}

/// Whether an event behind one with status `running` is not taken for another one:
/// where its status is left out, it is that of a channel message, and the first
/// data byte is below 0x80.
pub open spec fn told(kind: RawEventKind<Seq<u8>>, running: Option<u8>) -> bool {
    match kind {
        RawEventKind::Midi { status, data1, .. } => running == Some(status) ==> bare(status)
            || status < 0xF0 && data1 < 0x80,
        _ => true,
    }
}

/// Whether none of the events is taken for another one.
pub open spec fn all_told(events: Seq<RawEvent<Seq<u8>>>, running: Option<u8>) -> bool
    decreases events.len(),
{
    events.len() > 0 ==> {
        &&& told(events[0].kind, running)
        &&& all_told(events.drop_first(), running_after(events[0].kind))
    }
}

/// Whether an event behind one with status `running` can be read as it is written:
/// its delta time fits 28 bits, it has just the data that it takes, and it is not
/// taken for another one.
pub open spec fn legible(event: RawEvent<Seq<u8>>, running: Option<u8>) -> bool {
    &&& event.delta < 0x1000_0000
    &&& readable(event.kind)
    &&& told(event.kind, running)
}

/// Whether all events can be read as they are written.
pub open spec fn all_legible(events: Seq<RawEvent<Seq<u8>>>, running: Option<u8>) -> bool
    decreases events.len(),
{
    events.len() > 0 ==> {
        &&& legible(events[0], running)
        &&& all_legible(events.drop_first(), running_after(events[0].kind))
    }
}

/// The status that a reader knows where the writer may leave out `running`: a reader
/// forgets the status of a system message.
pub open spec fn heard(running: Option<u8>) -> Option<u8> {
    match running {
        Some(status) if status < 0xF0 => Some(status),
        _ => None,
    }
}

proof fn lemma_prefixed_back(data: Seq<u8>, after: Seq<u8>)
    requires
        data.len() < 0x1000_0000,
    ensures
        prefixed(with_length(data) + after, Error::UnexpectedEof, Error::UnexpectedEof) == Ok::<
            (Seq<u8>, int),
            Error,
        >((data, with_length(data).len() as int)),
{
    let size = data.len() as u32;
    let d = with_length(data) + after;
    let n = vlq_bytes(size).len() as int;
    assert(d =~= Seq::<u8>::empty() + vlq_bytes(size) + (data + after));
    lemma_vlq_round_trip(seq![], size, data + after);
    assert(d.subrange(n, n + size) =~= data);
}

/// A message that is written is read back.
proof fn lemma_message_back(
    status: u8,
    data1: u8,
    data2: Option<u8>,
    running: Option<u8>,
    after: Seq<u8>,
)
    requires
        is_message(status, data1, data2),
        running == Some(status) ==> bare(status) || status < 0xF0 && data1 < 0x80,
    ensures
        ({
            let kind = RawEventKind::Midi { status, data1, data2 };
            let bytes = kind_bytes(kind, running);
            raw_kind(bytes + after, heard(running)) == Ok::<(RawEventKind<Seq<u8>>, int), Error>(
                (kind, bytes.len() as int),
            ) && raw_running(bytes + after, heard(running)) == heard(running_after(kind))
        }),
{
    reveal(raw_kind);
    let kind: RawEventKind<Seq<u8>> = RawEventKind::Midi { status, data1, data2 };
    let d = kind_bytes(kind, running) + after;
    if bare(status) {
        assert(d[0] == status);
    } else if running == Some(status) {
        assert(d[0] == data1);
        if let Some(v) = data2 {
            assert(d[1] == v);
        }
    } else {
        assert(d[0] == status);
        assert(d.skip(1)[0] == data1);
        if let Some(v) = data2 {
            assert(d.skip(1)[1] == v);
        }
    }
}

/// Data that is written behind its status is read back.
proof fn lemma_data_back(
    status: u8,
    head: Seq<u8>,
    data: Seq<u8>,
    running: Option<u8>,
    after: Seq<u8>,
)
    requires
        data.len() < 0x1000_0000,
        head.len() >= 1,
        head[0] == status,
        status == 0xF0 || status == 0xF7 || status == 0xFF,
        head.len() == if status == 0xFF {
            2int
        } else {
            1
        },
    ensures
        ({
            let bytes = head + with_length(data);
            let kind = if status == 0xF0 {
                RawEventKind::SysEx { data }
            } else if status == 0xF7 {
                RawEventKind::Escape { data }
            } else {
                RawEventKind::Meta { type_byte: head[1], data }
            };
            raw_kind(bytes + after, running) == Ok::<(RawEventKind<Seq<u8>>, int), Error>(
                (kind, bytes.len() as int),
            ) && raw_running(bytes + after, running) is None
        }),
{
    lemma_prefixed_back(data, after);
    let tail = with_length(data);
    let d = head + tail + after;
    assert(d[0] == status);
    assert(d.skip(head.len() as int) =~= tail + after);
    if status == 0xFF {
        assert(d[1] == head[1]);
    }
    reveal(raw_kind);
}

proof fn lemma_kind_back(event: RawEvent<Seq<u8>>, running: Option<u8>, after: Seq<u8>)
    requires
        legible(event, running),
    ensures
        ({
            let bytes = kind_bytes(event.kind, running);
            &&& raw_kind(bytes + after, heard(running)) == Ok::<
                (RawEventKind<Seq<u8>>, int),
                Error,
            >((event.kind, bytes.len() as int))
            &&& raw_running(bytes + after, heard(running)) == heard(running_after(event.kind))
        }),
{
    let known = heard(running);
    match event.kind {
        RawEventKind::Midi { status, data1, data2 } => {
            lemma_message_back(status, data1, data2, running, after);
        },
        RawEventKind::SysEx { data } => {
            lemma_data_back(0xF0, seq![0xF0u8], data, known, after);
        },
        RawEventKind::Escape { data } => {
            lemma_data_back(0xF7, seq![0xF7u8], data, known, after);
        },
        RawEventKind::Meta { type_byte, data } => {
            lemma_data_back(0xFF, seq![0xFFu8, type_byte], data, known, after);
        },
    }
}

/// An event that is written is read back in one step.
proof fn lemma_event_back(event: RawEvent<Seq<u8>>, running: Option<u8>, after: Seq<u8>)
    requires
        legible(event, running),
    ensures
        ({
            let step = raw_step(raw_bytes(event, running) + after, heard(running));
            &&& step.item == Some(Ok::<RawEvent<Seq<u8>>, Error>(event))
            &&& step.rest == after
            &&& step.running == heard(running_after(event.kind))
        }),
{
    let delta = vlq_bytes(event.delta);
    let body = kind_bytes(event.kind, running);
    let d = raw_bytes(event, running) + after;
    assert(d =~= Seq::<u8>::empty() + delta + (body + after));
    lemma_vlq_round_trip(seq![], event.delta, body + after);
    assert(d.skip(delta.len() as int) =~= body + after);
    lemma_kind_back(event, running, after);
    assert((body + after).skip(body.len() as int) =~= after);
}

/// Events that are written are read back, all of them and without an error, where
/// they can be read as they are written.
pub proof fn lemma_written_reads_back(events: Seq<RawEvent<Seq<u8>>>, running: Option<u8>)
    requires
        all_legible(events, running),
    ensures
        raw_events(all_bytes(events, running), heard(running)) == events,
        raw_error(all_bytes(events, running), heard(running)) is None,
    decreases events.len(),
{
    if events.len() == 0 {
        assert(raw_events(all_bytes(events, running), heard(running)) =~= events);
    } else {
        let event = events[0];
        let rest = events.drop_first();
        let after = all_bytes(rest, running_after(event.kind));
        lemma_written_reads_back(rest, running_after(event.kind));
        lemma_event_back(event, running, after);
        assert(seq![event] + rest =~= events);
    }
}

/// Whether all delta times fit 28 bits.
pub open spec fn all_short(events: Seq<RawEvent<Seq<u8>>>) -> bool {
    forall|i: int| 0 <= i < events.len() ==> (#[trigger] events[i]).delta < 0x1000_0000
}

/// Whether all events have just the data that they take.
pub open spec fn all_readable(events: Seq<RawEvent<Seq<u8>>>) -> bool {
    forall|i: int| 0 <= i < events.len() ==> readable((#[trigger] events[i]).kind)
}

proof fn lemma_all_legible(events: Seq<RawEvent<Seq<u8>>>, running: Option<u8>)
    requires
        all_short(events),
        all_readable(events),
        all_told(events, running),
    ensures
        all_legible(events, running),
    decreases events.len(),
{
    if events.len() > 0 {
        let rest = events.drop_first();
        assert(events[0].delta < 0x1000_0000 && readable(events[0].kind));
        assert forall|i: int| 0 <= i < rest.len() implies (#[trigger] rest[i]).delta < 0x1000_0000
            && readable(rest[i].kind) by {
            assert(rest[i] == events[i + 1]);
        }
        lemma_all_legible(rest, running_after(events[0].kind));
    }
}

/// An event that was read has just the data that it takes.
proof fn lemma_kind_readable(d: Seq<u8>, running: Option<u8>)
    requires
        running matches Some(status) ==> 0x80 <= status < 0xF0,
    ensures
        raw_kind(d, running) matches Ok((kind, _)) ==> readable(kind),
{
    reveal(raw_kind);
    reveal(vlq_value);
}

/// The events that are read have just the data that they take.
proof fn lemma_read_readable(d: Seq<u8>, running: Option<u8>)
    requires
        running matches Some(status) ==> 0x80 <= status < 0xF0,
    ensures
        all_readable(raw_events(d, running)),
    decreases d.len(),
{
    let step = raw_step(d, running);
    if let Some(Ok(event)) = step.item {
        lemma_raw_step(d, running);
        lemma_kind_readable(d.skip(vlq_len(d, 0)), running);
        lemma_read_readable(step.rest, step.running);
        let rest = raw_events(step.rest, step.running);
        let all = seq![event] + rest;
        assert forall|i: int| 0 <= i < all.len() implies readable((#[trigger] all[i]).kind) by {
            if i > 0 {
                assert(all[i] == rest[i - 1]);
            }
        }
    }
}

/// What is written for an event that has just the data that it takes is like that too.
proof fn lemma_out_readable(state: FixState, event: RawEvent<Seq<u8>>)
    requires
        readable(event.kind),
    ensures
        all_readable(state.out(event)),
{
    match role(event.kind) {
        Role::Strike { channel, key, velocity } => {
            assert(channel < 16);
            assert(readable(note_on(channel, key, 0)));
            assert(readable(note_on(channel, key, velocity)));
        },
        Role::End { channel, key, velocity } => {
            assert(channel < 16);
            assert(readable(note_end(channel, key, velocity)));
        },
        _ => {},
    }
}

proof fn lemma_fixed_readable(state: FixState, events: Seq<RawEvent<Seq<u8>>>)
    requires
        all_readable(events),
    ensures
        all_readable(state.fixed(events)),
    decreases events.len(),
{
    if events.len() > 0 {
        let event = events[0];
        let rest = events.drop_first();
        assert(readable(event.kind));
        assert forall|i: int| 0 <= i < rest.len() implies readable((#[trigger] rest[i]).kind) by {
            assert(rest[i] == events[i + 1]);
        }
        let out = state.out(event);
        let after = state.next(event).fixed(rest);
        lemma_out_readable(state, event);
        lemma_fixed_readable(state.next(event), rest);
        let all = out + after;
        assert forall|i: int| 0 <= i < all.len() implies readable((#[trigger] all[i]).kind) by {
            if i < out.len() {
                assert(all[i] == out[i]);
            } else {
                assert(all[i] == after[i - out.len()]);
            }
        }
    }
}

/// A track that is written again reads back as the events that were written, all of
/// them and without an error, where every delta time to be written fits 28 bits and
/// no status is left out that a reader needs.
pub proof fn lemma_rewritten_reads_back(d: Seq<u8>)
    requires
        ({
            let written = FixState::start().fixed(raw_events(d, None));
            &&& all_short(written)
            &&& all_told(written, None)
        }),
    ensures
        raw_events(track_content(d), None) == FixState::start().fixed(raw_events(d, None)),
        raw_error(track_content(d), None) is None,
{
    let written = FixState::start().fixed(raw_events(d, None));
    lemma_read_readable(d, None);
    lemma_fixed_readable(FixState::start(), raw_events(d, None));
    lemma_all_legible(written, None);
    lemma_written_reads_back(written, None);
}

/// The sum of the delta times.
pub open spec fn total(events: Seq<RawEvent<Seq<u8>>>) -> int
    decreases events.len(),
{
    if events.len() == 0 {
        0
    } else {
        events[0].delta + total(events.drop_first())
    }
}

/// Whether an event is never taken for another one: a message is one of a channel
/// with a first data byte below 0x80, or one without data.
pub open spec fn plain(kind: RawEventKind<Seq<u8>>) -> bool {
    match kind {
        RawEventKind::Midi { status, data1, .. } => bare(status) || status < 0xF0 && data1 < 0x80,
        _ => true,
    }
}

/// Whether no event is ever taken for another one.
pub open spec fn all_plain(events: Seq<RawEvent<Seq<u8>>>) -> bool {
    forall|i: int| 0 <= i < events.len() ==> plain((#[trigger] events[i]).kind)
}

proof fn lemma_plain_told(events: Seq<RawEvent<Seq<u8>>>, running: Option<u8>)
    requires
        all_plain(events),
    ensures
        all_told(events, running),
    decreases events.len(),
{
    if events.len() > 0 {
        let rest = events.drop_first();
        assert(plain(events[0].kind));
        assert forall|i: int| 0 <= i < rest.len() implies plain((#[trigger] rest[i]).kind) by {
            assert(rest[i] == events[i + 1]);
        }
        lemma_plain_told(rest, running_after(events[0].kind));
    }
}

/// What is written for an event takes no more time than is to be written, and is
/// plain where the event is.
proof fn lemma_out_plain(state: FixState, event: RawEvent<Seq<u8>>)
    requires
        plain(event.kind),
        state.pending + event.delta < 0x1000_0000,
    ensures
        all_plain(state.out(event)),
        all_short(state.out(event)),
        state.next(event).pending <= state.pending + event.delta,
{
    reveal(wrapped);
    match role(event.kind) {
        Role::Strike { channel, key, velocity } => {
            assert(channel < 16);
            assert(plain(note_on(channel, key, 0)));
            assert(plain(note_on(channel, key, velocity)));
        },
        Role::End { channel, key, velocity } => {
            assert(channel < 16);
            assert(plain(note_end(channel, key, velocity)));
        },
        _ => {},
    }
}

proof fn lemma_total_least(events: Seq<RawEvent<Seq<u8>>>)
    ensures
        total(events) >= 0,
    decreases events.len(),
{
    if events.len() > 0 {
        lemma_total_least(events.drop_first());
    }
}

proof fn lemma_fixed_plain(state: FixState, events: Seq<RawEvent<Seq<u8>>>)
    requires
        all_plain(events),
        state.pending + total(events) < 0x1000_0000,
    ensures
        all_plain(state.fixed(events)),
        all_short(state.fixed(events)),
    decreases events.len(),
{
    if events.len() > 0 {
        let event = events[0];
        let rest = events.drop_first();
        assert(plain(event.kind));
        assert forall|i: int| 0 <= i < rest.len() implies plain((#[trigger] rest[i]).kind) by {
            assert(rest[i] == events[i + 1]);
        }
        let out = state.out(event);
        let after = state.next(event).fixed(rest);
        lemma_total_least(rest);
        lemma_out_plain(state, event);
        lemma_fixed_plain(state.next(event), rest);
        let all = out + after;
        assert forall|i: int| 0 <= i < all.len() implies plain((#[trigger] all[i]).kind)
            && all[i].delta < 0x1000_0000 by {
            if i < out.len() {
                assert(all[i] == out[i]);
            } else {
                assert(all[i] == after[i - out.len()]);
            }
        }
    }
}

/// What is written for events can be read as it is written, where every message is
/// one of a channel with a first data byte below 0x80 or one without data, and all
/// delta times together fit 28 bits.
pub proof fn lemma_fixed_legible(events: Seq<RawEvent<Seq<u8>>>)
    requires
        all_readable(events),
        all_plain(events),
        total(events) < 0x1000_0000,
    ensures
        all_legible(FixState::start().fixed(events), None),
{
    let written = FixState::start().fixed(events);
    lemma_fixed_readable(FixState::start(), events);
    lemma_fixed_plain(FixState::start(), events);
    lemma_plain_told(written, None);
    lemma_all_legible(written, None);
}

/// A track that is written again reads back as the events that were written, all of
/// them and without an error, where every message of it is one of a channel with a
/// first data byte below 0x80 or one without data, and all its delta times together
/// fit 28 bits.
pub proof fn lemma_plain_reads_back(d: Seq<u8>)
    requires
        all_plain(raw_events(d, None)),
        total(raw_events(d, None)) < 0x1000_0000,
    ensures
        raw_events(track_content(d), None) == FixState::start().fixed(raw_events(d, None)),
        raw_error(track_content(d), None) is None,
{
    let events = raw_events(d, None);
    lemma_read_readable(d, None);
    lemma_fixed_legible(events);
    lemma_written_reads_back(FixState::start().fixed(events), None);
}

} // verus!
