//! Packets and the track data that they are converted to.

use vstd::prelude::*;

use crate::bytes::{be32, lesser};
use crate::ump::{encoded, event_bytes, leaves_out_status, ump_events, ump_track, UmpEvent};
use crate::vlq::vlq_bytes;

verus! {

/// A packet, by its parts.
pub enum Packet {
    /// The ticks up to the next message, below 2^20.
    Ticks { group: u8, ticks: u32 },
    /// Another utility packet.
    Utility { group: u8, kind: u8, a: u8, b: u8 },
    /// A channel message of one word.
    Message { channel: u8, kind: u8, spare: u8, data1: u8, data2: u8 },
    /// A note-on or a note-off of two words.
    Note { channel: u8, on: bool, spare: u8, n1: u8, n0: u8, v1: u8, v0: u8, a: u8, b: u8 },
    /// Something else of two words.
    Long { b0: u8, b1: u8, b2: u8, b3: u8, b4: u8, b5: u8, b6: u8, b7: u8 },
    /// Something else of one word.
    Short { b0: u8, b1: u8, b2: u8, b3: u8 },
}

impl Packet {
    /// Whether the parts are in their ranges.
    pub open spec fn valid(self) -> bool {
        match self {
            Packet::Ticks { group, ticks } => group < 16 && ticks < 0x10_0000,
            Packet::Utility { group, kind, .. } => group < 16 && kind / 16 != 1,
            Packet::Message { channel, kind, spare, .. } => channel < 16 && 0x8 <= kind <= 0xE
                && spare < 16,
            Packet::Note { channel, spare, .. } => channel < 16 && spare < 16,
            Packet::Long { b0, b1, .. } => b0 / 16 == 5 || (b0 / 16 == 4 && b1 / 16 != 8 && b1 / 16
                != 9),
            Packet::Short { b0, b1, .. } => b0 / 16 == 1 || b0 / 16 == 3 || b0 / 16 >= 6 || (b0
                / 16 == 2 && (b1 / 16 < 0x8 || b1 / 16 == 0xF)),
        }
    }

    /// The bytes of the packet.
    pub open spec fn bytes(self) -> Seq<u8> {
        match self {
            Packet::Ticks { group, ticks } => seq![
                group,
                (0x10 + ticks / 0x1_0000) as u8,
                (ticks / 0x100 % 0x100) as u8,
                (ticks % 0x100) as u8,
            ],
            Packet::Utility { group, kind, a, b } => seq![group, kind, a, b],
            Packet::Message { channel, kind, spare, data1, data2 } => seq![
                (0x20 + channel) as u8,
                (16 * kind + spare) as u8,
                data1,
                data2,
            ],
            Packet::Note { channel, on, spare, n1, n0, v1, v0, a, b } => seq![
                (0x40 + channel) as u8,
                ((if on {
                    0x90int
                } else {
                    0x80
                }) + spare) as u8,
                n1,
                n0,
                v1,
                v0,
                a,
                b,
            ],
            Packet::Long { b0, b1, b2, b3, b4, b5, b6, b7 } => seq![b0, b1, b2, b3, b4, b5, b6, b7],
            Packet::Short { b0, b1, b2, b3 } => seq![b0, b1, b2, b3],
        }
    }

    /// The message of the packet, `delta` ticks after the one before.
    pub open spec fn message(self, delta: u32) -> Option<UmpEvent> {
        match self {
            Packet::Message { channel, kind, data1, data2, .. } => Some(
                UmpEvent {
                    delta,
                    status: (16 * kind + channel) as u8,
                    data1,
                    data2: if kind == 0xC || kind == 0xD {
                        None
                    } else {
                        Some(data2)
                    },
                },
            ),
            Packet::Note { channel, on, n1, n0, v1, .. } => Some(
                UmpEvent {
                    delta,
                    status: ((if on {
                        0x90int
                    } else {
                        0x80
                    }) + channel) as u8,
                    data1: if n1 > 0 {
                        255
                    } else {
                        n0
                    },
                    data2: Some(
                        if v1 > 127 {
                            127
                        } else {
                            v1
                        },
                    ),
                },
            ),
            _ => None,
        }
    }

    /// The ticks that count for the next message behind the packet.
    pub open spec fn ticks(self, delta: u32) -> u32 {
        match self {
            Packet::Ticks { ticks, .. } => ticks,
            Packet::Message { .. } => 0,
            Packet::Note { .. } => 0,
            _ => delta,
        }
    }
}

/// The bytes of packets, one right behind the other.
pub open spec fn packet_bytes(packets: Seq<Packet>) -> Seq<u8>
    decreases packets.len(),
{
    if packets.len() == 0 {
        seq![]
    } else {
        packets[0].bytes() + packet_bytes(packets.drop_first())
    }
}

/// The messages of packets; `delta` ticks have passed since the last one.
pub open spec fn packet_messages(packets: Seq<Packet>, delta: u32) -> Seq<UmpEvent>
    decreases packets.len(),
{
    if packets.len() == 0 {
        seq![]
    } else {
        let rest = packet_messages(packets.drop_first(), packets[0].ticks(delta));
        match packets[0].message(delta) {
            Some(message) => seq![message] + rest,
            None => rest,
        }
    }
}

/// The parts of a word, from its bytes.
proof fn lemma_word_parts(word: u32, a: u8, b: u8, c: u8, d: u8)
    requires
        word == 0x100_0000 * a + 0x1_0000 * b + 0x100 * c + d,
    ensures
        word / 0x1000_0000 == a / 16,
        word / 0x100_0000 == a,
        word / 0x10_0000 % 16 == b / 16,
        word % 0x10_0000 == 0x1_0000 * (b % 16) + 0x100 * c + d,
        word % 0x1_0000 == 0x100 * c + d,
        word / 0x100 % 0x100 == c,
        word % 0x100 == d,
{
    let high: int = 256 * a + b;
    let low: int = 256 * c + d;
    assert(word == 0x1_0000 * high + low);
    assert(word % 0x1_0000 == low && word / 0x1_0000 == high);
    assert(word / 0x100_0000 == high / 256);
    assert(word / 0x1000_0000 == high / 256 / 16);
    assert(word / 0x10_0000 == high / 16);
    assert(high / 16 == 16 * a + b / 16);
    assert(word % 0x100 == low % 256);
    assert(word / 0x100 == 256 * high + c);
    assert(word % 0x10_0000 == 0x1_0000 * (high % 16) + low);
}

/// The first word of a packet behind other bytes.
proof fn lemma_word(before: Seq<u8>, w: Seq<u8>, after: Seq<u8>, i: int)
    requires
        0 <= i,
        i + 4 <= w.len(),
    ensures
        ({
            let word = be32(before + (w + after), before.len() + i);
            &&& word == 0x100_0000 * w[i] + 0x1_0000 * w[i + 1] + 0x100 * w[i + 2] + w[i + 3]
            &&& word / 0x1000_0000 == w[i] / 16
            &&& word / 0x100_0000 == w[i]
            &&& word / 0x100_0000 % 16 == w[i] % 16
            &&& word / 0x10_0000 % 16 == w[i + 1] / 16
            &&& word % 0x10_0000 == 0x1_0000 * (w[i + 1] % 16) + 0x100 * w[i + 2] + w[i + 3]
            &&& word % 0x1_0000 == 0x100 * w[i + 2] + w[i + 3]
            &&& word / 0x100 % 0x100 == w[i + 2]
            &&& word % 0x100 == w[i + 3]
        }),
{
    reveal(be32);
    let s = before + (w + after);
    let at = before.len() + i;
    assert(s[at] == w[i]);
    assert(s[at + 1] == w[i + 1]);
    assert(s[at + 2] == w[i + 2]);
    assert(s[at + 3] == w[i + 3]);
    lemma_word_parts(be32(s, at), w[i], w[i + 1], w[i + 2], w[i + 3]);
}

/// One packet in front of other bytes.
proof fn lemma_packet_first(before: Seq<u8>, packet: Packet, after: Seq<u8>, delta: u32)
    requires
        packet.valid(),
    ensures
        ({
            let s = before + (packet.bytes() + after);
            let next = before.len() + packet.bytes().len();
            ump_events(s, before.len() as int, delta) == match packet.message(delta) {
                Some(message) => seq![message] + ump_events(s, next as int, packet.ticks(delta)),
                None => ump_events(s, next as int, packet.ticks(delta)),
            }
        }),
{
    let w = packet.bytes();
    let s = before + (w + after);
    lemma_word(before, w, after, 0);
    if w.len() == 8 {
        lemma_word(before, w, after, 4);
    }
    match packet {
        Packet::Ticks { ticks, .. } => {
            assert(ticks / 0x1_0000 < 16);
            assert((ticks / 0x1_0000) * 0x1_0000 + ticks / 0x100 % 0x100 * 0x100 + ticks % 0x100
                == ticks);
        },
        Packet::Utility { .. } => {},
        Packet::Message { channel, kind, spare, .. } => {
            assert(w[1] / 16 == kind);
            assert(w[0] % 16 == channel);
        },
        Packet::Note { channel, on, spare, n1, n0, v1, .. } => {
            assert(w[0] % 16 == channel);
            assert(lesser(0x100 * n1 + n0, 255) == if n1 > 0 {
                255
            } else {
                n0 as int
            });
        },
        Packet::Long { .. } => {},
        Packet::Short { .. } => {},
    }
}

/// Whether some bytes are no whole packet: fewer than four, or fewer than eight of a
/// packet of two words.
pub open spec fn cut_packet(tail: Seq<u8>) -> bool {
    tail.len() < 4 || (tail.len() < 8 && (tail[0] / 16 == 4 || tail[0] / 16 == 5))
}

proof fn lemma_tail(before: Seq<u8>, tail: Seq<u8>, delta: u32)
    requires
        cut_packet(tail),
    ensures
        ump_events(before + tail, before.len() as int, delta).len() == 0,
{
    let s = before + tail;
    let at = before.len() as int;
    if tail.len() >= 4 {
        lemma_word(before, tail, seq![], 0);
        assert(tail + Seq::<u8>::empty() =~= tail);
        assert(ump_events(s, at + 8, delta) =~= seq![]);
    }
}

proof fn lemma_packets_from(before: Seq<u8>, packets: Seq<Packet>, tail: Seq<u8>, delta: u32)
    requires
        forall|i: int| 0 <= i < packets.len() ==> (#[trigger] packets[i]).valid(),
        cut_packet(tail),
    ensures
        ump_events(before + (packet_bytes(packets) + tail), before.len() as int, delta)
            == packet_messages(packets, delta),
    decreases packets.len(),
{
    let s = before + (packet_bytes(packets) + tail);
    if packets.len() > 0 {
        let packet = packets[0];
        let rest = packets.drop_first();
        let after = packet_bytes(rest) + tail;
        assert forall|i: int| 0 <= i < rest.len() implies (#[trigger] rest[i]).valid() by {
            assert(rest[i] == packets[i + 1]);
        }
        lemma_packet_first(before, packet, after, delta);
        lemma_packets_from(before + packet.bytes(), rest, tail, packet.ticks(delta));
        assert(packet_bytes(packets) + tail =~= packet.bytes() + after);
        assert((before + packet.bytes()) + after =~= s);
    } else {
        assert(packet_bytes(packets) + tail =~= tail);
        lemma_tail(before, tail, delta);
        assert(ump_events(s, before.len() as int, delta) =~= seq![]);
    }
}

/// The messages of a chunk are those of its packets, in their order. A message comes
/// as many ticks after the one before as the last ticks packet between them says, or
/// none. Of a note of two words, the number is held at 255, and the velocity is its
/// high byte, held at 127.
pub proof fn lemma_packets(packets: Seq<Packet>)
    requires
        forall|i: int| 0 <= i < packets.len() ==> (#[trigger] packets[i]).valid(),
    ensures
        ump_events(packet_bytes(packets), 0, 0) == packet_messages(packets, 0),
{
    lemma_packets_cut(packets, seq![]);
    assert(packet_bytes(packets) + Seq::<u8>::empty() =~= packet_bytes(packets));
}

/// A packet that is cut off at the end of a chunk gives no message.
pub proof fn lemma_packets_cut(packets: Seq<Packet>, tail: Seq<u8>)
    requires
        forall|i: int| 0 <= i < packets.len() ==> (#[trigger] packets[i]).valid(),
        cut_packet(tail),
    ensures
        ump_events(packet_bytes(packets) + tail, 0, 0) == packet_messages(packets, 0),
{
    let s = packet_bytes(packets) + tail;
    lemma_packets_from(seq![], packets, tail, 0);
    assert(Seq::<u8>::empty() + s =~= s);
}

/// The bytes of one message at its start.
proof fn lemma_one_message(event: UmpEvent)
    requires
        event.delta < 0x80,
    ensures
        encoded(seq![event], None) == seq![event.delta as u8, event.status, event.data1] + (
        match event.data2 {
            Some(d) => seq![d],
            None => seq![],
        }),
{
    reveal(vlq_bytes);
    let one = seq![event];
    assert(one.drop_first() =~= seq![]);
    assert(one[0] == event);
    assert(encoded(one.drop_first(), Some(event.status)) =~= seq![]);
    assert(encoded(one, None) =~= event_bytes(event, None));
    assert(event_bytes(event, None) =~= seq![event.delta as u8, event.status, event.data1] + (
    match event.data2 {
        Some(d) => seq![d],
        None => seq![],
    }));
}

proof fn lemma_one_packet(packet: Packet)
    requires
        packet.valid(),
        packet.message(0) is Some,
    ensures
        ump_track(packet.bytes()) == encoded(seq![packet.message(0)->0], None),
{
    let one = seq![packet];
    assert(one.drop_first() =~= seq![]);
    assert(one[0] == packet);
    assert(packet_bytes(one.drop_first()) =~= seq![]);
    assert(packet_bytes(one) =~= packet.bytes());
    assert(packet_messages(one.drop_first(), 0) =~= seq![]);
    lemma_packets(one);
    assert(packet_messages(one, 0) =~= seq![packet.message(0)->0]);
}

/// A note of two words alone in a chunk gives a delta time 0, the status of its
/// channel, its number up to 255 and the high byte of its velocity up to 127.
pub proof fn lemma_note_alone(
    c: u8,
    g: u8,
    n1: u8,
    n0: u8,
    v1: u8,
    v0: u8,
    a: u8,
    b: u8,
)
    requires
        c < 16,
        g < 16,
    ensures
        ump_track(
            seq![(0x40 + c) as u8, (0x90 + g) as u8, n1, n0, v1, v0, a, b],
        ) == seq![
            0u8,
            (0x90 + c) as u8,
            lesser(n1 * 256 + n0, 255) as u8,
            lesser(v1 as int, 127) as u8,
        ],
        ump_track(
            seq![(0x40 + c) as u8, (0x80 + g) as u8, n1, n0, v1, v0, a, b],
        ) == seq![
            0u8,
            (0x80 + c) as u8,
            lesser(n1 * 256 + n0, 255) as u8,
            lesser(v1 as int, 127) as u8,
        ],
{
    let on = Packet::Note { channel: c, on: true, spare: g, n1, n0, v1, v0, a, b };
    let off = Packet::Note { channel: c, on: false, spare: g, n1, n0, v1, v0, a, b };
    lemma_one_packet(on);
    lemma_one_packet(off);
    lemma_one_message(on.message(0)->0);
    lemma_one_message(off.message(0)->0);
    assert(lesser(n1 * 256 + n0, 255) == if n1 > 0 {
        255
    } else {
        n0 as int
    });
}

/// A message of one word alone in a chunk gives a delta time 0, the status of its
/// channel and its data: one byte for a program and for channel pressure, else two.
pub proof fn lemma_message_alone(c: u8, kind: u8, g: u8, data1: u8, data2: u8)
    requires
        c < 16,
        0x8 <= kind <= 0xE,
        g < 16,
    ensures
        ump_track(seq![(0x20 + c) as u8, (16 * kind + g) as u8, data1, data2]) == if kind == 0xC
            || kind == 0xD {
            seq![0u8, (16 * kind + c) as u8, data1]
        } else {
            seq![0u8, (16 * kind + c) as u8, data1, data2]
        },
{
    let packet = Packet::Message { channel: c, kind, spare: g, data1, data2 };
    lemma_one_packet(packet);
    lemma_one_message(packet.message(0)->0);
}

/// A ticks packet in front of a message gives the message that delta time, and is
/// used up by it.
pub proof fn lemma_ticks_then_message(ticks: u32, c: u8, kind: u8, data1: u8, data2: u8)
    requires
        ticks < 0x10_0000,
        c < 16,
        0x8 <= kind <= 0xE,
    ensures
        ({
            let message = seq![(0x20 + c) as u8, (16 * kind) as u8, data1, data2];
            let s = seq![
                0u8,
                (0x10 + ticks / 0x1_0000) as u8,
                (ticks / 0x100 % 0x100) as u8,
                (ticks % 0x100) as u8,
            ] + message + message;
            let events = ump_events(s, 0, 0);
            &&& events.len() == 2
            &&& events[0].delta == ticks
            &&& events[1].delta == 0
            &&& events[0].status == 16 * kind + c && events[1].status == 16 * kind + c
            &&& events[0].data1 == data1 && events[1].data1 == data1
        }),
{
    let first = Packet::Ticks { group: 0, ticks };
    let second = Packet::Message { channel: c, kind, spare: 0, data1, data2 };
    let packets = seq![first, second, second];
    let message = second.bytes();
    assert(packets.drop_first() =~= seq![second, second]);
    assert(packets.drop_first().drop_first() =~= seq![second]);
    assert(packets.drop_first().drop_first().drop_first() =~= seq![]);
    reveal_with_fuel(packet_bytes, 4);
    reveal_with_fuel(packet_messages, 4);
    lemma_packets(packets);
    assert(packet_bytes(packets) =~= first.bytes() + message + message);
}

/// How a message is written behind another one: the status is left out just where it
/// is the same and the first data byte is below 128.
pub proof fn lemma_status_written(event: UmpEvent, last: Option<u8>)
    ensures
        ({
            let data = seq![event.data1] + (match event.data2 {
                Some(d) => seq![d],
                None => seq![],
            });
            event_bytes(event, last) == vlq_bytes(event.delta) + (if last == Some(event.status)
                && event.data1 < 128 {
                data
            } else {
                seq![event.status] + data
            })
        }),
{
    let data = seq![event.data1] + (match event.data2 {
        Some(d) => seq![d],
        None => seq![],
    });
    assert(event_bytes(event, last) =~= vlq_bytes(event.delta) + (if leaves_out_status(event, last) {
        data
    } else {
        seq![event.status] + data
    }));
}

} // verus!
