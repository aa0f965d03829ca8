//! The readers of tracks agree on well-formed tracks.
//!
//! There are three: the scan, which only counts, the track reader behind note
//! extraction, and the event iterator, which gives full events. They differ in
//! what they make of broken data. On well-formed data they find the same notes
//! and tempo changes.

use vstd::prelude::*;

use crate::bytes::{be16, be24, be32, named, MTHD, RIFF};
use crate::cue::{strikes, Cue};
use crate::error::Error;
use crate::event::TrackEvent;
use crate::fast_midi::{ends_cut, scan_body, scan_cues, track_events, track_step};
use crate::fast_midi::{header_of, tracks_from};
use crate::loader::{cue_of, cue_of_event, cues_of, cues_of_bytes, cues_of_track};
use crate::loader::{all_notes, cues_of_tracks, lemma_note_count, track_notes, tracks_of};
use crate::mmap::{event_kind, event_views, events_of, item_step, items, next_running, prefixed};
use crate::mmap::{lemma_events_are_items, parsed, track_chunks};
use crate::primitive::{group_low_bits, u24, u28, u7};
use crate::scan::{scanned, whole_tracks, Found};
use crate::smf::Header;
use crate::vlq::{lemma_vlq_skip, vlq_complete, vlq_len, vlq_value};

verus! {

/// A well-formed event: its delta time, its status, where its data starts and
/// ends, and the status that the next event may leave out.
pub struct Sound {
    pub delta: u32,
    pub status: u8,
    pub at: int,
    pub end: int,
    pub running: Option<u8>,
}

/// The end of the data at `at` of an event with this status, where the data is well-formed.
pub open spec fn sound_end(s: Seq<u8>, at: int, status: u8) -> Option<int> {
    let len = s.len() as int;
    if status < 0x80 {
        None
    } else if status / 16 == 0xC || status / 16 == 0xD {
        if at + 1 <= len && s[at] < 0x80 {
            Some(at + 1)
        } else {
            None
        }
    } else if status < 0xF0 {
        if at + 2 <= len && s[at] < 0x80 && s[at + 1] < 0x80 {
            Some(at + 2)
        } else {
            None
        }
    } else if status == 0xFF {
        let end = at + 1 + vlq_len(s, at + 1) + vlq_value(s, at + 1);
        if at < len && vlq_complete(s, at + 1) && end <= len && (s[at] == 0x51 ==> vlq_value(
            s,
            at + 1,
        ) == 3) {
            Some(end)
        } else {
            None
        }
    } else if status == 0xF0 || status == 0xF7 {
        let end = at + vlq_len(s, at) + vlq_value(s, at);
        if vlq_complete(s, at) && end <= len {
            Some(end)
        } else {
            None
        }
    } else {
        None
    }
}

/// The event at `offset`, where it is well-formed: a complete delta time, a status
/// byte, or a channel status to take up, and complete data. Data bytes of channel
/// messages are below 0x80, and a tempo has three bytes.
#[verifier::opaque]
pub open spec fn sound_event(s: Seq<u8>, offset: int, running: Option<u8>) -> Option<Sound> {
    let first = offset + vlq_len(s, offset);
    if !vlq_complete(s, offset) || first >= s.len() {
        None
    } else {
        let taken = s[first] < 0x80;
        let status = if !taken {
            s[first]
        } else {
            match running {
                Some(status) => if 0x80 <= status < 0xF0 {
                    status
                } else {
                    0
                },
                None => 0,
            }
        };
        let at = if taken {
            first
        } else {
            first + 1
        };
        match sound_end(s, at, status) {
            Some(end) => Some(
                Sound {
                    delta: vlq_value(s, offset),
                    status,
                    at,
                    end,
                    running: if status < 0xF0 {
                        Some(status)
                    } else {
                        None
                    },
                },
            ),
            None => None,
        }
    }
}

/// A well-formed event moves on.
pub proof fn lemma_sound_event(s: Seq<u8>, offset: int, running: Option<u8>)
    requires
        0 <= offset,
    ensures
        sound_event(s, offset, running) matches Some(e) ==> offset < e.end <= s.len() && e.at
            <= s.len(),
{
    reveal(sound_event);
}

/// Whether the bytes from `offset` on are a well-formed track.
pub open spec fn well_formed(s: Seq<u8>, offset: int, running: Option<u8>) -> bool
    decreases s.len() - offset,
{
    offset == s.len() || match sound_event(s, offset, running) {
        Some(e) if 0 <= offset => {
            proof {
                lemma_sound_event(s, offset, running);
            }
            well_formed(s, e.end, e.running)
        },
        _ => false,
    }
}

/// What a well-formed event means for the notes.
pub open spec fn sound_cue(s: Seq<u8>, e: Sound) -> Cue {
    let start = e.at + 1 + vlq_len(s, e.at + 1);
    if e.status / 16 == 0x9 && s[e.at + 1] > 0 {
        Cue::Strike { key: s[e.at], velocity: s[e.at + 1] }
    } else if e.status / 16 == 0x8 || e.status / 16 == 0x9 {
        Cue::Release { key: s[e.at] }
    } else if e.status == 0xFF && s[e.at] == 0x51 && be24(s, start) > 0 {
        Cue::Tempo { microseconds: be24(s, start) }
    } else {
        Cue::Other
    }
}

/// The cues of a well-formed track from `offset` on.
pub open spec fn sound_cues(s: Seq<u8>, offset: int, running: Option<u8>) -> Seq<(u32, Cue)>
    decreases s.len() - offset,
{
    match sound_event(s, offset, running) {
        Some(e) if 0 <= offset => {
            proof {
                lemma_sound_event(s, offset, running);
            }
            seq![(e.delta, sound_cue(s, e))] + sound_cues(s, e.end, e.running)
        },
        _ => seq![],
    }
}

/// The scan takes a well-formed event for what it is.
proof fn lemma_scan_sound(s: Seq<u8>, offset: int, running: Option<u8>, last: u8)
    requires
        0 <= offset,
        sound_event(s, offset, running) is Some,
        running matches Some(status) ==> last == status,
    ensures
        ({
            let e = sound_event(s, offset, running)->0;
            let status = if e.status < 0xF0 {
                e.status
            } else {
                last
            };
            scan_cues(s, offset, last) == seq![(e.delta, sound_cue(s, e))] + scan_cues(
                s,
                e.end,
                status,
            )
        }),
{
    reveal(sound_event);
    let e = sound_event(s, offset, running)->0;
    assert(scan_body(s, e.at, e.status) == (sound_cue(s, e), e.end)) by {
        reveal(scan_body);
    }
}

proof fn lemma_scan_agrees_from(s: Seq<u8>, offset: int, running: Option<u8>, last: u8)
    requires
        0 <= offset,
        well_formed(s, offset, running),
        running matches Some(status) ==> last == status,
    ensures
        scan_cues(s, offset, last) == sound_cues(s, offset, running),
    decreases s.len() - offset,
{
    lemma_sound_event(s, offset, running);
    if offset == s.len() {
        assert(scan_cues(s, offset, last) =~= seq![]);
        assert(sound_cues(s, offset, running) =~= seq![]);
    } else {
        let e = sound_event(s, offset, running)->0;
        lemma_scan_sound(s, offset, running, last);
        lemma_running(s, offset, running);
        let status = if e.status < 0xF0 {
            e.status
        } else {
            last
        };
        lemma_scan_agrees_from(s, e.end, e.running, status);
    }
}

proof fn lemma_running(s: Seq<u8>, offset: int, running: Option<u8>)
    requires
        sound_event(s, offset, running) is Some,
    ensures
        ({
            let e = sound_event(s, offset, running)->0;
            e.running == if e.status < 0xF0 {
                Some(e.status)
            } else {
                None
            }
        }),
{
    reveal(sound_event);
}

/// The track reader takes a well-formed event for what it is.
proof fn lemma_track_sound(s: Seq<u8>, offset: int, running: Option<u8>, last: Option<u8>)
    requires
        0 <= offset,
        sound_event(s, offset, running) is Some,
        running is Some ==> last == running,
    ensures
        ({
            let e = sound_event(s, offset, running)->0;
            let step = track_step(s, offset, last);
            &&& step.item matches Some(item) && item.0 == e.delta && cue_of(item.1) == sound_cue(s, e)
            &&& step.offset == e.end
            &&& step.status == if e.status < 0xF0 {
                Some(e.status)
            } else {
                last
            }
        }),
{
    reveal(sound_event);
    reveal(track_step);
    let e = sound_event(s, offset, running)->0;
    let start = e.at + 1 + vlq_len(s, e.at + 1);
    if e.status == 0xFF && s[e.at] == 0x51 {
        assert(be24(s.subrange(start, e.end), 0) == be24(s, start)) by {
            reveal(be24);
        }
    }
}

proof fn lemma_track_agrees_from(s: Seq<u8>, offset: int, running: Option<u8>, last: Option<u8>)
    requires
        0 <= offset,
        well_formed(s, offset, running),
        running is Some ==> last == running,
    ensures
        cues_of(track_events(s, offset, last)) == sound_cues(s, offset, running),
        !ends_cut(s, offset, last),
    decreases s.len() - offset,
{
    lemma_sound_event(s, offset, running);
    if offset == s.len() {
        assert(track_step(s, offset, last).item is None) by {
            reveal(track_step);
        }
        assert(cues_of(track_events(s, offset, last)) =~= seq![]);
        assert(sound_cues(s, offset, running) =~= seq![]);
    } else {
        let e = sound_event(s, offset, running)->0;
        let step = track_step(s, offset, last);
        lemma_track_sound(s, offset, running, last);
        lemma_running(s, offset, running);
        lemma_track_agrees_from(s, e.end, e.running, step.status);
        let rest = track_events(s, e.end, step.status);
        assert(track_events(s, offset, last) == seq![step.item->0] + rest);
        assert(cues_of(seq![step.item->0] + rest) =~= seq![(e.delta, sound_cue(s, e))] + cues_of(
            rest,
        ));
    }
}

/// What the event iterator gives, as cues.
pub open spec fn item_cues(items: Seq<Result<TrackEvent<Seq<u8>>, Error>>) -> Seq<(u32, Cue)> {
    Seq::new(
        items.len(),
        |i: int|
            match items[i] {
                Ok(event) => (event.delta.value(), cue_of_event(event)),
                Err(_) => (0, Cue::Other),
            },
    )
}

/// The data behind a length at `at` of `s`, seen from there.
proof fn lemma_prefixed_sound(s: Seq<u8>, at: int, end: int, bad_length: Error, cut: Error)
    requires
        0 <= at <= s.len(),
        vlq_complete(s, at),
        end == at + vlq_len(s, at) + vlq_value(s, at),
        end <= s.len(),
    ensures
        prefixed(s.skip(at), bad_length, cut) == Ok::<(Seq<u8>, int), Error>(
            (s.subrange(at + vlq_len(s, at), end), end - at),
        ),
{
    lemma_vlq_skip(s, at, 0);
    assert(s.skip(at).subrange(vlq_len(s, at), end - at) =~= s.subrange(at + vlq_len(s, at), end));
}

/// The event of a well-formed channel message, meta event or other data, from
/// where its data starts.
proof fn lemma_kind_sound(s: Seq<u8>, first: int, e: Sound, running: Option<u8>)
    requires
        0 <= first < s.len(),
        sound_end(s, e.at, e.status) == Some(e.end),
        e.at == if s[first] < 0x80 {
            first
        } else {
            first + 1
        },
        s[first] < 0x80 ==> running == Some(e.status) && e.status < 0xF0,
        s[first] >= 0x80 ==> e.status == s[first],
    ensures
        event_kind(s.skip(first), running) matches Ok((kind, n)) && n == e.end - first
            && cue_of_event(TrackEvent { delta: u28::new(e.delta), kind }) == sound_cue(s, e),
        next_running(s.skip(first), running) == if e.status < 0xF0 {
            Some(e.status)
        } else {
            None
        },
{
    broadcast use group_low_bits;

    reveal(event_kind);
    let d = s.skip(first);
    assert(d[0] == s[first]);
    assert(d.skip(1) =~= s.skip(first + 1));
    if e.status == 0xFF {
        let start = e.at + 1 + vlq_len(s, e.at + 1);
        assert(d.skip(2) =~= s.skip(first + 2));
        assert(d[1] == s[e.at]);
        lemma_prefixed_sound(s, e.at + 1, e.end, Error::MetaLength, Error::MetaDataCut);
        if s[e.at] == 0x51 {
            let data = s.subrange(start, e.end);
            assert(be24(data, 0) == be24(s, start) && be24(data, 0) < 0x100_0000) by {
                reveal(be24);
            }
            assert(u24::new(be24(data, 0)).value() == be24(data, 0));
        }
    } else if e.status == 0xF0 {
        lemma_prefixed_sound(s, e.at, e.end, Error::SysExLength, Error::SysExDataCut);
    } else if e.status == 0xF7 {
        lemma_prefixed_sound(s, e.at, e.end, Error::EscapeLength, Error::EscapeDataCut);
    } else {
        let data = if s[first] < 0x80 {
            d
        } else {
            d.skip(1)
        };
        assert(data[0] == s[e.at]);
        if e.end == e.at + 2 {
            assert(data[1] == s[e.at + 1]);
            assert(u7::new(data[1]).value() == data[1]);
        }
    }
}

/// The event iterator takes a well-formed event for what it is.
proof fn lemma_item_sound(s: Seq<u8>, offset: int, running: Option<u8>)
    requires
        0 <= offset < s.len(),
        sound_event(s, offset, running) is Some,
    ensures
        ({
            let e = sound_event(s, offset, running)->0;
            let step = item_step(s.skip(offset), running);
            &&& step.item matches Ok(event) && event.delta.value() == e.delta && cue_of_event(event)
                == sound_cue(s, e)
            &&& step.rest == s.skip(e.end)
            &&& step.running == e.running
        }),
{
    broadcast use group_low_bits;

    reveal(sound_event);
    let e = sound_event(s, offset, running)->0;
    let n = vlq_len(s, offset);
    let first = offset + n;
    lemma_vlq_skip(s, offset, 0);
    assert(s.skip(offset).skip(n) =~= s.skip(first));
    lemma_kind_sound(s, first, e, running);
    assert(s.skip(first).skip(e.end - first) =~= s.skip(e.end));
    assert(u28::new(e.delta).value() == e.delta);
}

proof fn lemma_items_agree_from(s: Seq<u8>, offset: int, running: Option<u8>)
    requires
        0 <= offset,
        well_formed(s, offset, running),
    ensures
        item_cues(items(s.skip(offset), running)) == sound_cues(s, offset, running),
        forall|i: int|
            0 <= i < items(s.skip(offset), running).len() ==> (#[trigger] items(
                s.skip(offset),
                running,
            )[i]) is Ok,
    decreases s.len() - offset,
{
    lemma_sound_event(s, offset, running);
    let all = items(s.skip(offset), running);
    if offset == s.len() {
        assert(item_cues(all) =~= seq![]);
        assert(sound_cues(s, offset, running) =~= seq![]);
    } else {
        let e = sound_event(s, offset, running)->0;
        let step = item_step(s.skip(offset), running);
        lemma_item_sound(s, offset, running);
        lemma_items_agree_from(s, e.end, e.running);
        let rest = items(s.skip(e.end), e.running);
        assert(all == seq![step.item] + rest);
        assert(item_cues(all) =~= seq![(e.delta, sound_cue(s, e))] + item_cues(rest));
        assert forall|i: int| 0 <= i < all.len() implies (#[trigger] all[i]) is Ok by {
            if i > 0 {
                assert(all[i] == rest[i - 1]);
            }
        }
    }
}

/// On a well-formed track the event iterator comes to no error, and it finds the
/// notes and tempo changes that the scan finds.
pub proof fn lemma_scan_and_items_agree(s: Seq<u8>)
    requires
        well_formed(s, 0, None),
    ensures
        item_cues(items(s, None)) == scan_cues(s, 0, 0),
        forall|i: int| 0 <= i < items(s, None).len() ==> (#[trigger] items(s, None)[i]) is Ok,
{
    assert(s.skip(0) =~= s);
    lemma_items_agree_from(s, 0, None);
    lemma_scan_agrees_from(s, 0, None, 0);
}

/// On a well-formed track, note extraction comes to no cut meta event, and it finds
/// the notes and tempo changes that the scan finds.
pub proof fn lemma_scan_and_extraction_agree(s: Seq<u8>)
    requires
        well_formed(s, 0, None),
    ensures
        cues_of_bytes(s) == scan_cues(s, 0, 0),
        !ends_cut(s, 0, None),
{
    lemma_track_agrees_from(s, 0, None, None);
    lemma_scan_agrees_from(s, 0, None, 0);
}

/// All keys of a well-formed track are below 128.
proof fn lemma_sound_keys(s: Seq<u8>, offset: int, running: Option<u8>)
    requires
        0 <= offset,
    ensures
        strikes(sound_cues(s, offset, running), 256) == strikes(
            sound_cues(s, offset, running),
            128,
        ),
    decreases s.len() - offset,
{
    lemma_sound_event(s, offset, running);
    match sound_event(s, offset, running) {
        Some(e) => {
            if offset < s.len() {
                lemma_sound_keys(s, e.end, e.running);
                let rest = sound_cues(s, e.end, e.running);
                crate::cue::lemma_first_cue(e.delta, sound_cue(s, e), rest, 0, 256);
                crate::cue::lemma_first_cue(e.delta, sound_cue(s, e), rest, 0, 128);
                reveal(sound_event);
            }
        },
        None => {},
    }
}

/// A scan counts as many notes in a well-formed track as are extracted from it.
pub proof fn lemma_scan_counts_notes(s: Seq<u8>, track: u16)
    requires
        well_formed(s, 0, None),
    ensures
        strikes(scan_cues(s, 0, 0), 256) == track_notes(cues_of_bytes(s), track).len(),
{
    lemma_scan_and_extraction_agree(s);
    lemma_scan_agrees_from(s, 0, None, 0);
    lemma_sound_keys(s, 0, None);
    lemma_note_count(cues_of_bytes(s), track);
}

/// The events of a well-formed track that was parsed and copied give the notes and
/// tempo changes that extraction from its bytes finds.
pub proof fn lemma_parsed_and_bytes_agree(track: Seq<TrackEvent<Vec<u8>>>, s: Seq<u8>)
    requires
        event_views(track) == events_of(items(s, None)),
        well_formed(s, 0, None),
    ensures
        cues_of_track(track) == cues_of_bytes(s),
{
    let all = items(s, None);
    let events = events_of(all);
    lemma_scan_and_items_agree(s);
    lemma_scan_and_extraction_agree(s);
    lemma_events_are_items(s, None);
    lemma_all_events(all);
    assert(cues_of_track(track) =~= item_cues(all)) by {
        assert forall|i: int| 0 <= i < track.len() implies cues_of_track(track)[i] == item_cues(
            all,
        )[i] by {
            assert(event_views(track)[i] == events[i]);
            assert(all[i] == Ok::<TrackEvent<Seq<u8>>, Error>(events[i]));
        }
    }
}

/// Without errors every item is an event.
proof fn lemma_all_events(all: Seq<Result<TrackEvent<Seq<u8>>, Error>>)
    requires
        forall|i: int| 0 <= i < all.len() ==> (#[trigger] all[i]) is Ok,
    ensures
        events_of(all).len() == all.len(),
    decreases all.len(),
{
    if all.len() > 0 {
        let rest = all.drop_first();
        assert forall|i: int| 0 <= i < rest.len() implies (#[trigger] rest[i]) is Ok by {
            assert(rest[i] == all[i + 1]);
        }
        lemma_all_events(rest);
        assert(all[0] is Ok);
    }
}

/// Track chunks that stand one right behind the other are found by all readers of files.
proof fn lemma_track_chunks_agree(d: Seq<u8>, pos: int, count: int)
    requires
        0 <= pos,
        track_chunks(d, pos, count) is Ok,
    ensures
        tracks_from(d, pos, count) == track_chunks(d, pos, count)->Ok_0,
        whole_tracks(d, pos, count) == track_chunks(d, pos, count)->Ok_0,
    decreases count,
{
    if count > 0 {
        lemma_track_chunks_agree(d, pos + 8 + be32(d, pos + 4), count - 1);
    }
}

/// Where a plain file can be parsed in place, note extraction and the scan find the
/// same header and the same tracks.
pub proof fn lemma_file_readers_agree(s: Seq<u8>)
    requires
        named(s, 0, MTHD),
        parsed(s) is Ok,
    ensures
        ({
            let (header, tracks) = parsed(s)->Ok_0;
            let count = be16(s, 10);
            let division = be16(s, 12);
            &&& header_of(s) == Ok::<(Header, u16, u16, Seq<u8>), Error>(
                (header, count, division, s),
            )
            &&& tracks_of(s, count) == tracks
            &&& scanned(s) == Ok::<Found, Error>(Found::nothing(division).with_tracks(tracks))
        }),
{
    lemma_track_chunks_agree(s, 14, be16(s, 10) as int);
    assert(!named(s, 0, RIFF));
}

/// The last track adds to what the tracks before it add.
proof fn lemma_with_last_track(found: Found, tracks: Seq<Seq<u8>>)
    requires
        tracks.len() > 0,
    ensures
        found.with_tracks(tracks) == found.with_tracks(tracks.drop_last()).with_track(
            tracks.last(),
        ),
    decreases tracks.len(),
{
    if tracks.len() == 1 {
        let one = found.with_track(tracks[0]);
        assert(one.with_tracks(tracks.drop_first()) == one);
        assert(found.with_tracks(tracks.drop_last()) == found);
    } else {
        let rest = tracks.drop_first();
        lemma_with_last_track(found.with_track(tracks[0]), rest);
        assert(rest.drop_last() =~= tracks.drop_last().drop_first());
        assert(rest.last() == tracks.last());
        assert(tracks.drop_last()[0] == tracks[0]);
    }
}

proof fn lemma_count_from(found: Found, tracks: Seq<Seq<u8>>)
    requires
        forall|i: int|
            0 <= i < tracks.len() ==> well_formed(#[trigger] tracks[i], 0, None),
    ensures
        found.with_tracks(tracks).note_count == found.note_count + all_notes(
            cues_of_tracks(tracks),
            tracks.len() as int,
        ).len(),
    decreases tracks.len(),
{
    if tracks.len() > 0 {
        let n = tracks.len() as int;
        let before = tracks.drop_last();
        let last = tracks.last();
        assert forall|i: int| 0 <= i < before.len() implies well_formed(
            #[trigger] before[i],
            0,
            None,
        ) by {
            assert(before[i] == tracks[i]);
        }
        assert(last == tracks[n - 1]);
        lemma_count_from(found, before);
        lemma_with_last_track(found, tracks);
        lemma_scan_counts_notes(last, ((n - 1) % 0x1_0000) as u16);
        lemma_same_notes(cues_of_tracks(before), cues_of_tracks(tracks), n - 1);
    }
}

/// The notes of the first tracks depend on these alone.
proof fn lemma_same_notes(a: Seq<Seq<(u32, Cue)>>, b: Seq<Seq<(u32, Cue)>>, n: int)
    requires
        n <= a.len(),
        n <= b.len(),
        forall|i: int| 0 <= i < n ==> a[i] == b[i],
    ensures
        all_notes(a, n) == all_notes(b, n),
    decreases n,
{
    if n > 0 {
        lemma_same_notes(a, b, n - 1);
    }
}

/// Where a plain file can be parsed in place and its tracks are well-formed, the
/// scan counts as many notes as are extracted.
pub proof fn lemma_file_counts_agree(s: Seq<u8>)
    requires
        named(s, 0, MTHD),
        parsed(s) matches Ok((_, tracks)) && forall|i: int|
            0 <= i < tracks.len() ==> well_formed(#[trigger] tracks[i], 0, None),
    ensures
        ({
            let tracks = parsed(s)->Ok_0.1;
            scanned(s) matches Ok(found) && found.note_count == all_notes(
                cues_of_tracks(tracks),
                tracks.len() as int,
            ).len()
        }),
{
    lemma_file_readers_agree(s);
    lemma_count_from(Found::nothing(be16(s, 12)), parsed(s)->Ok_0.1);
}

} // verus!
