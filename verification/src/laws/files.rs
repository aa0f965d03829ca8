//! Files that are put together from a header and chunks, and what is found in them.

use vstd::prelude::*;

use crate::bytes::{be16, be32, be32_bytes, le32, lemma_be32_round_trip, named, place_of};
use crate::bytes::{MTHD, MTRK, RIFF, RIFF_DATA, RMID, UMP_CHUNK};
use crate::error::Error;
use crate::fast_midi::{header_of, tracks_from};
use crate::loader::tracks_of;
use crate::mmap::{parsed, track_chunks};
use crate::overlap::{all_narrow, chunks_narrow, chunks_out, file_narrow, file_out, raw_error};
use crate::overlap::{raw_events, track_chunk};
use crate::primitive::{Format, Timing};
use crate::riff::unwrapped;
use crate::scan::{scanned, whole_tracks, Found};
use crate::smf::Header;
use crate::ump::{any_ump, chunk_list, converted, preprocessed, ump_track};

verus! {

/// A chunk: a name of four bytes and data.
pub struct Chunk {
    pub name: Seq<u8>,
    pub data: Seq<u8>,
}

/// The name of a track chunk.
pub open spec fn mtrk() -> Seq<u8> {
    seq![0x4Du8, 0x54, 0x72, 0x6B]
}

/// The name of a chunk of packets.
pub open spec fn ump() -> Seq<u8> {
    seq![0x55u8, 0x4D, 0x50, 0x20]
}

impl Chunk {
    /// Whether the name has four bytes and the length fits its field.
    pub open spec fn valid(self) -> bool {
        self.name.len() == 4 && self.data.len() <= u32::MAX
    }

    /// The bytes of the chunk: its name, its length and its data.
    pub open spec fn bytes(self) -> Seq<u8> {
        self.name + be32_bytes(self.data.len() as u32) + self.data
    }
}

/// The bytes of chunks, one right behind the other.
pub open spec fn chunk_bytes(chunks: Seq<Chunk>) -> Seq<u8>
    decreases chunks.len(),
{
    if chunks.len() == 0 {
        seq![]
    } else {
        chunks[0].bytes() + chunk_bytes(chunks.drop_first())
    }
}

pub open spec fn all_valid(chunks: Seq<Chunk>) -> bool {
    forall|i: int| 0 <= i < chunks.len() ==> (#[trigger] chunks[i]).valid()
}

/// The data of the first `count` track chunks.
pub open spec fn tracks_in(chunks: Seq<Chunk>, count: int) -> Seq<Seq<u8>>
    decreases chunks.len(),
{
    if chunks.len() == 0 || count <= 0 {
        seq![]
    } else if chunks[0].name == mtrk() {
        seq![chunks[0].data] + tracks_in(chunks.drop_first(), count - 1)
    } else {
        tracks_in(chunks.drop_first(), count)
    }
}

proof fn lemma_names(s: Seq<u8>, at: int, name: Seq<u8>)
    requires
        0 <= at,
        at + 4 <= s.len(),
        name.len() == 4,
        s[at] == name[0] && s[at + 1] == name[1] && s[at + 2] == name[2] && s[at + 3] == name[3],
    ensures
        named(s, at, MTRK) <==> name == mtrk(),
        named(s, at, UMP_CHUNK) <==> name == ump(),
{
    reveal(be32);
    if named(s, at, MTRK) {
        assert(name =~= mtrk());
    }
    if named(s, at, UMP_CHUNK) {
        assert(name =~= ump());
    }
}

/// A chunk behind other bytes: its name, its length and where it ends.
proof fn lemma_chunk(before: Seq<u8>, chunk: Chunk, after: Seq<u8>)
    requires
        chunk.valid(),
    ensures
        ({
            let s = before + (chunk.bytes() + after);
            let at = before.len() as int;
            let end = at + 8 + chunk.data.len();
            &&& chunk.bytes().len() == 8 + chunk.data.len()
            &&& end <= s.len()
            &&& named(s, at, MTRK) <==> chunk.name == mtrk()
            &&& named(s, at, UMP_CHUNK) <==> chunk.name == ump()
            &&& be32(s, at + 4) == chunk.data.len()
            &&& s.subrange(at + 8, end) == chunk.data
            &&& s.subrange(at, end) == chunk.bytes()
            &&& s == (before + chunk.bytes()) + after
            &&& (before + chunk.bytes()).len() == end
        }),
{
    let s = before + (chunk.bytes() + after);
    let at = before.len() as int;
    let size = chunk.data.len() as u32;
    let end = at + 8 + chunk.data.len();
    lemma_be32_round_trip(size);
    let b = chunk.bytes();
    assert(s[at] == b[0] && s[at + 1] == b[1] && s[at + 2] == b[2] && s[at + 3] == b[3]);
    lemma_names(s, at, chunk.name);
    assert(s.subrange(at + 4, at + 8) =~= be32_bytes(size));
    crate::bytes::lemma_part_numbers(s, at + 4, at + 8, 0);
    assert(s.subrange(at + 8, end) =~= chunk.data);
    assert(s.subrange(at, end) =~= b);
    assert(s =~= (before + b) + after);
}

proof fn lemma_rest_valid(chunks: Seq<Chunk>)
    requires
        all_valid(chunks),
        chunks.len() > 0,
    ensures
        chunks[0].valid(),
        all_valid(chunks.drop_first()),
{
    let rest = chunks.drop_first();
    assert forall|i: int| 0 <= i < rest.len() implies (#[trigger] rest[i]).valid() by {
        assert(rest[i] == chunks[i + 1]);
    }
}

proof fn lemma_tracks_found(before: Seq<u8>, chunks: Seq<Chunk>, count: int)
    requires
        all_valid(chunks),
    ensures
        ({
            let s = before + chunk_bytes(chunks);
            let at = before.len() as int;
            &&& tracks_from(s, at, count) == tracks_in(chunks, count)
            &&& whole_tracks(s, at, count) == tracks_in(chunks, count)
        }),
    decreases chunks.len(),
{
    let s = before + chunk_bytes(chunks);
    let at = before.len() as int;
    if chunks.len() == 0 {
        assert(tracks_from(s, at, count) =~= seq![]);
        assert(whole_tracks(s, at, count) =~= seq![]);
    } else {
        let chunk = chunks[0];
        let rest = chunks.drop_first();
        lemma_rest_valid(chunks);
        lemma_chunk(before, chunk, chunk_bytes(rest));
        lemma_tracks_found(before + chunk.bytes(), rest, count);
        lemma_tracks_found(before + chunk.bytes(), rest, count - 1);
        if count <= 0 {
            assert(tracks_from(s, at, count) =~= seq![]);
            assert(whole_tracks(s, at, count) =~= seq![]);
        }
    }
}

/// The header chunk of a file.
pub open spec fn head(format: u16, count: u16, division: u16) -> Seq<u8> {
    seq![
        0x4Du8,
        0x54,
        0x68,
        0x64,
        0,
        0,
        0,
        6,
        (format / 256) as u8,
        (format % 256) as u8,
        (count / 256) as u8,
        (count % 256) as u8,
        (division / 256) as u8,
        (division % 256) as u8,
    ]
}

proof fn lemma_head(format: u16, count: u16, division: u16, after: Seq<u8>)
    ensures
        ({
            let s = head(format, count, division) + after;
            &&& named(s, 0, MTHD)
            &&& !named(s, 0, RIFF)
            &&& be32(s, 4) == 6
            &&& be16(s, 8) == format
            &&& be16(s, 10) == count
            &&& be16(s, 12) == division
        }),
{
    reveal(be32);
    reveal(be16);
    let s = head(format, count, division) + after;
    let h = head(format, count, division);
    assert(s[0] == h[0] && s[1] == h[1] && s[2] == h[2] && s[3] == h[3]);
    assert(s[4] == h[4] && s[5] == h[5] && s[6] == h[6] && s[7] == h[7]);
    assert(s[8] == h[8] && s[9] == h[9] && s[10] == h[10] && s[11] == h[11]);
    assert(s[12] == h[12] && s[13] == h[13]);
}

/// A file with a header and chunks is read as that header, with its track chunks, as many
/// as the header counts, for tracks: by note extraction and by the scan.
pub proof fn lemma_file_read(format: u16, count: u16, division: u16, chunks: Seq<Chunk>)
    requires
        all_valid(chunks),
        Timing::of_division(division) is Some,
    ensures
        ({
            let s = head(format, count, division) + chunk_bytes(chunks);
            let timing = Timing::of_division(division)->0;
            &&& match header_of(s) {
                Ok((header, tracks, word, file)) => {
                    &&& Format::of_number(format) == Some(header.format)
                    &&& header.timing == timing
                    &&& tracks == count
                    &&& word == division
                    &&& file == s
                },
                Err(e) => Format::of_number(format) is None && e == Error::SmfFormat,
            }
            &&& tracks_from(s, 14, count as int) == tracks_in(chunks, count as int)
            &&& tracks_of(s, count) == tracks_in(chunks, count as int)
            &&& scanned(s) == Ok::<Found, Error>(
                Found::nothing(division).with_tracks(tracks_in(chunks, count as int)),
            )
        }),
{
    lemma_head(format, count, division, chunk_bytes(chunks));
    lemma_tracks_found(head(format, count, division), chunks, count as int);
}

/// A file whose chunks are tracks, as many as its header counts, is parsed in place as
/// these tracks. Another chunk among them is an error.
pub proof fn lemma_file_parsed(format: u16, division: u16, chunks: Seq<Chunk>)
    requires
        all_valid(chunks),
        chunks.len() <= 0xFFFF,
        Format::of_number(format) is Some,
        Timing::of_division(division) is Some,
    ensures
        ({
            let s = head(format, chunks.len() as u16, division) + chunk_bytes(chunks);
            let header = Header {
                format: Format::of_number(format)->0,
                timing: Timing::of_division(division)->0,
            };
            if forall|i: int| 0 <= i < chunks.len() ==> (#[trigger] chunks[i]).name == mtrk() {
                parsed(s) == Ok::<(Header, Seq<Seq<u8>>), Error>(
                    (header, Seq::new(chunks.len(), |i: int| chunks[i].data)),
                )
            } else {
                parsed(s) == Err::<(Header, Seq<Seq<u8>>), Error>(Error::ExpectedTrack)
            }
        }),
{
    let count = chunks.len() as u16;
    lemma_head(format, count, division, chunk_bytes(chunks));
    lemma_tracks_parsed(head(format, count, division), chunks);
}

proof fn lemma_tracks_parsed(before: Seq<u8>, chunks: Seq<Chunk>)
    requires
        all_valid(chunks),
    ensures
        ({
            let s = before + chunk_bytes(chunks);
            let r = track_chunks(s, before.len() as int, chunks.len() as int);
            if forall|i: int| 0 <= i < chunks.len() ==> (#[trigger] chunks[i]).name == mtrk() {
                r == Ok::<Seq<Seq<u8>>, Error>(Seq::new(chunks.len(), |i: int| chunks[i].data))
            } else {
                r == Err::<Seq<Seq<u8>>, Error>(Error::ExpectedTrack)
            }
        }),
    decreases chunks.len(),
{
    let all = Seq::new(chunks.len(), |i: int| chunks[i].data);
    if chunks.len() == 0 {
        assert(all =~= seq![]);
    } else {
        let chunk = chunks[0];
        let rest = chunks.drop_first();
        let others = Seq::new(rest.len(), |i: int| rest[i].data);
        lemma_rest_valid(chunks);
        lemma_chunk(before, chunk, chunk_bytes(rest));
        lemma_tracks_parsed(before + chunk.bytes(), rest);
        assert(all =~= seq![chunk.data] + others);
        if forall|i: int| 0 <= i < rest.len() ==> (#[trigger] rest[i]).name == mtrk() {
            assert forall|i: int| 0 <= i < chunks.len() && chunk.name == mtrk() implies (
            #[trigger] chunks[i]).name == mtrk() by {
                if i > 0 {
                    assert(rest[i - 1] == chunks[i]);
                }
            }
        } else {
            let i = choose|i: int| 0 <= i < rest.len() && (#[trigger] rest[i]).name != mtrk();
            assert(chunks[i + 1].name != mtrk());
        }
        if chunk.name != mtrk() {
            assert(chunks[0].name != mtrk());
        }
    }
}

/// The chunks with track data in place of packets.
pub open spec fn with_tracks_for_packets(chunks: Seq<Chunk>) -> Seq<Chunk> {
    Seq::new(
        chunks.len(),
        |i: int|
            if chunks[i].name == ump() {
                Chunk { name: mtrk(), data: ump_track(chunks[i].data) }
            } else {
                chunks[i]
            },
    )
}

proof fn lemma_converted_file(before: Seq<u8>, chunks: Seq<Chunk>)
    requires
        all_valid(chunks),
    ensures
        ({
            let s = before + chunk_bytes(chunks);
            let at = before.len() as int;
            &&& converted(s, at) == chunk_bytes(with_tracks_for_packets(chunks))
            &&& any_ump(chunk_list(s, at)) <==> exists|i: int|
                0 <= i < chunks.len() && (#[trigger] chunks[i]).name == ump()
        }),
    decreases chunks.len(),
{
    let s = before + chunk_bytes(chunks);
    let at = before.len() as int;
    let all = with_tracks_for_packets(chunks);
    let list = chunk_list(s, at);
    if chunks.len() == 0 {
        assert(converted(s, at) =~= seq![]);
        assert(list =~= seq![]);
    } else {
        let chunk = chunks[0];
        let rest = chunks.drop_first();
        let others = with_tracks_for_packets(rest);
        let next = before + chunk.bytes();
        lemma_rest_valid(chunks);
        lemma_chunk(before, chunk, chunk_bytes(rest));
        lemma_converted_file(next, rest);
        lemma_be32_name();
        assert(all.drop_first() =~= others);
        if chunk.name == ump() {
            assert(s.subrange(at + 8, next.len() as int) == chunk.data);
        }
        let later = chunk_list(s, next.len() as int);
        assert(list == seq![(be32(s, at), chunk.data)] + later);
        if chunk.name == ump() {
            assert(list[0].0 == UMP_CHUNK);
            assert(chunks[0].name == ump());
        }
        if any_ump(later) {
            let i = choose|i: int| 0 <= i < later.len() && (#[trigger] later[i]).0 == UMP_CHUNK;
            assert(list[i + 1].0 == UMP_CHUNK);
            let k = choose|k: int| 0 <= k < rest.len() && (#[trigger] rest[k]).name == ump();
            assert(chunks[k + 1].name == ump());
        }
        if any_ump(list) {
            let i = choose|i: int| 0 <= i < list.len() && (#[trigger] list[i]).0 == UMP_CHUNK;
            if i > 0 {
                assert(later[i - 1].0 == UMP_CHUNK);
            }
        }
        if exists|i: int| 0 <= i < chunks.len() && (#[trigger] chunks[i]).name == ump() {
            let i = choose|i: int| 0 <= i < chunks.len() && (#[trigger] chunks[i]).name == ump();
            if i > 0 {
                assert(rest[i - 1].name == ump());
            }
        }
    }
}

proof fn lemma_be32_name()
    ensures
        be32_bytes(MTRK) == mtrk(),
{
    reveal(be32_bytes);
    assert(be32_bytes(MTRK) =~= mtrk());
}

/// Preprocessing a file keeps its header and its chunks, in their order, and puts a track
/// chunk with the converted data in the place of every chunk of packets.
pub proof fn lemma_file_preprocessed(header: Seq<u8>, chunks: Seq<Chunk>)
    requires
        header.len() == 14,
        all_valid(chunks),
    ensures
        preprocessed(header + chunk_bytes(chunks)) == header + chunk_bytes(
            with_tracks_for_packets(chunks),
        ),
{
    let s = header + chunk_bytes(chunks);
    lemma_converted_file(header, chunks);
    assert(s.take(14) =~= header);
    if !any_ump(chunk_list(s, 14)) {
        assert forall|i: int| 0 <= i < chunks.len() implies with_tracks_for_packets(chunks)[i]
            == chunks[i] by {
            assert(chunks[i].name != ump());
        }
        assert(with_tracks_for_packets(chunks) =~= chunks);
    }
}

/// The track chunks, each written again.
pub open spec fn rewritten(chunks: Seq<Chunk>) -> Seq<u8>
    decreases chunks.len(),
{
    if chunks.len() == 0 {
        seq![]
    } else if chunks[0].name == mtrk() {
        track_chunk(chunks[0].data) + rewritten(chunks.drop_first())
    } else {
        rewritten(chunks.drop_first())
    }
}

/// Whether every track of the chunks can be read to its end.
pub open spec fn all_sound(chunks: Seq<Chunk>) -> bool {
    forall|i: int|
        0 <= i < chunks.len() && (#[trigger] chunks[i]).name == mtrk() ==> raw_error(
            chunks[i].data,
            None,
        ) is None
}

proof fn lemma_chunks_rewritten(before: Seq<u8>, chunks: Seq<Chunk>)
    requires
        all_valid(chunks),
        all_sound(chunks),
    ensures
        chunks_out(before + chunk_bytes(chunks), before.len() as int) == (
            rewritten(chunks),
            None::<Error>,
        ),
    decreases chunks.len(),
{
    if chunks.len() > 0 {
        let chunk = chunks[0];
        let rest = chunks.drop_first();
        lemma_rest_valid(chunks);
        assert(chunk.name == mtrk() ==> raw_error(chunk.data, None) is None);
        assert forall|i: int|
            0 <= i < rest.len() && (#[trigger] rest[i]).name == mtrk() implies raw_error(
            rest[i].data,
            None,
        ) is None by {
            assert(rest[i] == chunks[i + 1]);
        }
        lemma_chunk(before, chunk, chunk_bytes(rest));
        lemma_chunks_rewritten(before + chunk.bytes(), rest);
    }
}

/// A file that is written again has its header and its tracks, each written again, in
/// their order. Other chunks are left out.
pub proof fn lemma_file_rewritten(format: u16, count: u16, division: u16, chunks: Seq<Chunk>)
    requires
        all_valid(chunks),
        all_sound(chunks),
    ensures
        file_out(head(format, count, division) + chunk_bytes(chunks)) == (
            head(format, count, division) + rewritten(chunks),
            None::<Error>,
        ),
{
    let h = head(format, count, division);
    let s = h + chunk_bytes(chunks);
    lemma_head(format, count, division, chunk_bytes(chunks));
    lemma_chunks_rewritten(h, chunks);
    reveal(be32_bytes);
    assert(be32_bytes(MTHD) + be32_bytes(6) + s.subrange(8, 14) =~= h);
}

/// A track that is written again is a track chunk with the length of its content, where
/// the track can be read to its end.
pub proof fn lemma_rewritten_chunk(d: Seq<u8>)
    requires
        raw_error(d, None) is None,
        crate::overlap::track_content(d).len() <= u32::MAX,
    ensures
        track_chunk(d) == (Chunk { name: mtrk(), data: crate::overlap::track_content(d) }).bytes(),
{
    lemma_be32_name();
}

/// The first place at which a name stands: it stands there, and nowhere before.
pub proof fn lemma_first_place(s: Seq<u8>, name: u32, from: int, end: int)
    requires
        0 <= from,
    ensures
        match place_of(s, name, from, end) {
            Some(i) => from <= i && i + 4 <= end && named(s, i, name) && forall|k: int|
                from <= k < i ==> !#[trigger] named(s, k, name),
            None => forall|k: int| from <= k && k + 4 <= end ==> !#[trigger] named(s, k, name),
        },
    decreases end - from,
{
    if from + 4 <= end && !named(s, from, name) {
        lemma_first_place(s, name, from + 1, end);
    }
}

/// A file that is wrapped in RIFF data is found there: behind `RIFF`, the length of what
/// follows, `RMID` and `data` with the length of the file, the low byte first.
pub proof fn lemma_unwrapped(size: Seq<u8>, a: u8, b: u8, c: u8, d: u8, file: Seq<u8>, after: Seq<u8>)
    requires
        size.len() == 4,
        size[0] + 256 * size[1] + 65536 * size[2] + 16777216 * size[3] == 12 + file.len()
            + after.len(),
        file.len() == a + 256 * b + 65536 * c + 16777216 * d,
    ensures
        unwrapped(
            seq![0x52u8, 0x49, 0x46, 0x46] + size + seq![
                0x52u8,
                0x4D,
                0x49,
                0x44,
                0x64,
                0x61,
                0x74,
                0x61,
                a,
                b,
                c,
                d,
            ] + file + after,
        ) == Ok::<Seq<u8>, Error>(file),
{
    let name = seq![0x52u8, 0x49, 0x46, 0x46];
    let rest = seq![0x52u8, 0x4D, 0x49, 0x44, 0x64, 0x61, 0x74, 0x61, a, b, c, d];
    let s = name + size + rest + file + after;
    assert(s.subrange(0, 4) =~= name);
    assert(s.subrange(4, 8) =~= size);
    assert(s.subrange(8, 20) =~= rest);
    lemma_wrapped_numbers(s, size, rest, a, b, c, d);
    assert(s.subrange(20, 20 + file.len() as int) =~= file);
    assert(le32(size, 0) == 12 + file.len() + after.len()) by {
        reveal(le32);
    }
}

proof fn lemma_wrapped_numbers(s: Seq<u8>, size: Seq<u8>, rest: Seq<u8>, a: u8, b: u8, c: u8, d: u8)
    requires
        s.len() >= 20,
        size.len() == 4,
        rest == seq![0x52u8, 0x4D, 0x49, 0x44, 0x64, 0x61, 0x74, 0x61, a, b, c, d],
        s.subrange(0, 4) == seq![0x52u8, 0x49, 0x46, 0x46],
        s.subrange(4, 8) == size,
        s.subrange(8, 20) == rest,
    ensures
        named(s, 0, RIFF),
        named(s, 8, RMID),
        named(s, 12, RIFF_DATA),
        le32(s, 4) == le32(size, 0),
        le32(s, 16) == a + 256 * b + 65536 * c + 16777216 * d,
{
    reveal(be32);
    reveal(le32);
    let first = s.subrange(0, 4);
    let second = s.subrange(4, 8);
    let third = s.subrange(8, 20);
    assert(first[0] == s[0] && first[1] == s[1] && first[2] == s[2] && first[3] == s[3]);
    assert(second[0] == s[4] && second[1] == s[5] && second[2] == s[6] && second[3] == s[7]);
    assert(third[0] == s[8] && third[1] == s[9] && third[2] == s[10] && third[3] == s[11]);
    assert(third[4] == s[12] && third[5] == s[13] && third[6] == s[14] && third[7] == s[15]);
    assert(third[8] == s[16] && third[9] == s[17] && third[10] == s[18] && third[11] == s[19]);
}

/// Whether the keys that are looked at in the tracks are among the 128 keys.
pub open spec fn tracks_narrow(chunks: Seq<Chunk>) -> bool {
    forall|i: int|
        0 <= i < chunks.len() && (#[trigger] chunks[i]).name == mtrk() ==> all_narrow(
            raw_events(chunks[i].data, None),
        )
}

proof fn lemma_chunks_narrow(before: Seq<u8>, chunks: Seq<Chunk>)
    requires
        all_valid(chunks),
        all_sound(chunks),
    ensures
        chunks_narrow(before + chunk_bytes(chunks), before.len() as int) <==> tracks_narrow(chunks),
    decreases chunks.len(),
{
    if chunks.len() > 0 {
        let chunk = chunks[0];
        let rest = chunks.drop_first();
        lemma_rest_valid(chunks);
        assert(all_sound(rest)) by {
            assert forall|i: int| 0 <= i < rest.len() implies rest[i] == chunks[i + 1] by {}
        }
        lemma_chunk(before, chunk, chunk_bytes(rest));
        lemma_chunks_narrow(before + chunk.bytes(), rest);
        assert(tracks_narrow(chunks) <==> (chunk.name == mtrk() ==> all_narrow(
            raw_events(chunk.data, None),
        )) && tracks_narrow(rest)) by {
            assert forall|i: int| 0 <= i < rest.len() implies rest[i] == chunks[i + 1] by {}
            assert forall|i: int| 1 <= i < chunks.len() implies chunks[i] == rest[i - 1] by {}
        }
    }
}

/// A file can be written again just where each of its tracks can.
pub proof fn lemma_file_narrow(format: u16, count: u16, division: u16, chunks: Seq<Chunk>)
    requires
        all_valid(chunks),
        all_sound(chunks),
    ensures
        file_narrow(head(format, count, division) + chunk_bytes(chunks)) <==> tracks_narrow(chunks),
{
    lemma_head(format, count, division, chunk_bytes(chunks));
    lemma_chunks_narrow(head(format, count, division), chunks);
}

} // verus!
