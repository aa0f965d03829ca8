//! Figures on files, and how they add up.

use vstd::prelude::*;

use crate::bytes::lesser;
use crate::cue::{last_tick, strikes, tempos, Cue};
use crate::error::Error;
use crate::event::{MidiMessage, TrackEvent, TrackEventKind};
use crate::fast_midi::scan_cues;
use crate::loader::all_tempos;
use crate::mmap::{events_of, items, longest, note_ons, ticks_of, total_items, total_note_ons};
use crate::scan::{outcome, scanned, with_default, Found, MidiScanResult, ScanPhase, ScanState};

verus! {

/// One more track adds its strikes to the notes, itself to the tracks and its changes to
/// the tempos, and the last tick is the greatest of all.
pub proof fn lemma_scan_one_more(found: Found, tracks: Seq<Seq<u8>>, track: Seq<u8>)
    ensures
        ({
            let before = found.with_tracks(tracks);
            let after = found.with_tracks(tracks.push(track));
            let cues = scan_cues(track, 0, 0);
            &&& after.note_count == before.note_count + strikes(cues, 256)
            &&& after.track_count == before.track_count + 1
            &&& after.tempos == before.tempos + tempos(cues, 0)
            &&& after.max_tick >= before.max_tick && after.max_tick >= last_tick(cues, 0)
            &&& after.max_tick == before.max_tick || after.max_tick == last_tick(cues, 0)
            &&& after.division == before.division == found.division
            &&& found.with_tracks(seq![]) == found
        }),
    decreases tracks.len(),
{
    let more = tracks.push(track);
    if tracks.len() == 0 {
        let none = more.drop_first();
        assert(none =~= seq![]);
        assert(found.with_track(track).with_tracks(none) == found.with_track(track));
    } else {
        assert(more.drop_first() =~= tracks.drop_first().push(track));
        lemma_scan_one_more(found.with_track(tracks[0]), tracks.drop_first(), track);
    }
}

/// Before the first track nothing is counted.
pub proof fn lemma_scan_nothing(division: u16)
    ensures
        ({
            let found = Found::nothing(division);
            &&& found.note_count == 0 && found.track_count == 0 && found.max_tick == 0
            &&& found.tempos.len() == 0
            &&& found.division == division
        }),
{
}

/// The result of a scan has the counts as they are. Its tempos are among the changes that
/// were found, one for every tick with a change, and 500,000 microseconds at tick 0 where
/// there is no change there.
pub proof fn lemma_scan_result(result: MidiScanResult, found: Found, i: int, k: int)
    requires
        result.tells(found),
    ensures
        result.note_count == found.note_count,
        result.track_count == found.track_count,
        result.max_tick == found.max_tick,
        result.division == found.division,
        0 <= i < result.tempo_changes@.len() ==> found.tempos.contains(result.tempo_changes@[i]) || (
        result.tempo_changes@[i] == (0u32, 500_000u32) && forall|m: int|
            0 <= m < found.tempos.len() ==> (#[trigger] found.tempos[m]).0 != 0),
        0 < i < result.tempo_changes@.len() ==> result.tempo_changes@[i - 1].0
            < result.tempo_changes@[i].0,
        0 <= k < found.tempos.len() ==> exists|j: int|
            0 <= j < result.tempo_changes@.len() && (#[trigger] result.tempo_changes@[j]).0
                == found.tempos[k].0,
        result.tempo_changes@.len() > 0 && result.tempo_changes@[0].0 == 0,
{
    let r = result.tempo_changes@;
    let all = with_default(found.tempos);
    crate::scan::lemma_scan_tempo_from_start(found.tempos, r);
    if 0 <= i < r.len() {
        assert(all.contains(r[i]));
        let m = choose|m: int| 0 <= m < all.len() && all[m] == r[i];
        if m < found.tempos.len() {
            assert(found.tempos[m] == r[i]);
        } else {
            assert forall|m: int| 0 <= m < found.tempos.len() implies (
            #[trigger] found.tempos[m]).0 != 0 by {
                if found.tempos[m].0 == 0 {
                    assert(crate::loader::changes_at(found.tempos, 0));
                }
            }
        }
    }
    if 0 <= k < found.tempos.len() {
        assert(all[k] == found.tempos[k]);
        assert(crate::loader::changes_at(r, all[k].0));
    }
}

/// The tempo changes of several tracks are those of each, one track after the other.
pub proof fn lemma_tempos_of_tracks(tracks: Seq<Seq<(u32, Cue)>>, n: int)
    requires
        0 < n <= tracks.len(),
    ensures
        all_tempos(tracks, n) == all_tempos(tracks, n - 1) + tempos(tracks[n - 1], 0),
        all_tempos(tracks, 0).len() == 0,
{
}

/// What one more item of a track adds: an event, its ticks, and a note where it is a
/// note-on message. An error adds nothing.
pub proof fn lemma_one_more_item(
    all: Seq<Result<TrackEvent<Seq<u8>>, Error>>,
    item: Result<TrackEvent<Seq<u8>>, Error>,
)
    ensures
        ({
            let more = all.push(item);
            match item {
                Ok(event) => {
                    &&& events_of(more) == events_of(all).push(event)
                    &&& ticks_of(more) == ticks_of(all) + event.delta.value()
                    &&& match event.kind {
                        TrackEventKind::Midi { channel, message: MidiMessage::NoteOn { key, vel } } =>
                            note_ons(more) == note_ons(all).push((event.delta, key, vel, channel)),
                        _ => note_ons(more) == note_ons(all),
                    }
                },
                Err(_) => events_of(more) == events_of(all) && ticks_of(more) == ticks_of(all)
                    && note_ons(more) == note_ons(all),
            }
        }),
        events_of(seq![]).len() == 0 && ticks_of(seq![]) == 0 && note_ons(seq![]).len() == 0,
    decreases all.len(),
{
    let more = all.push(item);
    if all.len() == 0 {
        let none = more.drop_first();
        assert(none =~= seq![]);
        assert(events_of(none) =~= seq![] && note_ons(none) =~= seq![] && ticks_of(none) == 0);
        assert(events_of(all) =~= seq![] && note_ons(all) =~= seq![] && ticks_of(all) == 0);
        assert(events_of(more) =~= match item {
            Ok(event) => seq![event],
            Err(_) => seq![],
        });
        assert(note_ons(more) =~= match crate::mmap::note_on_of(item) {
            Some(note) => seq![note],
            None => seq![],
        });
    } else {
        let rest = all.drop_first();
        assert(more.drop_first() =~= rest.push(item));
        lemma_one_more_item(rest, item);
        if let Ok(event) = item {
            assert(events_of(more) =~= events_of(all).push(event));
            if let TrackEventKind::Midi { channel, message: MidiMessage::NoteOn { key, vel } } =
                event.kind {
                assert(note_ons(more) =~= note_ons(all).push((event.delta, key, vel, channel)));
            }
        }
    }
}

/// What one more track adds to the figures of a file, and that the duration is that of
/// the longest track.
pub proof fn lemma_one_more_track(tracks: Seq<Seq<u8>>, track: Seq<u8>)
    ensures
        ({
            let more = tracks.push(track);
            let ticks = ticks_of(items(track, None));
            &&& total_items(more) == total_items(tracks) + items(track, None).len()
            &&& total_note_ons(more) == total_note_ons(tracks) + note_ons(items(track, None)).len()
            &&& longest(more) >= longest(tracks) && longest(more) >= ticks
            &&& longest(more) == longest(tracks) || longest(more) == ticks
            &&& total_items(seq![]) == 0 && total_note_ons(seq![]) == 0 && longest(seq![]) == 0
        }),
{
    let more = tracks.push(track);
    assert(more.drop_last() =~= tracks);
    assert(more.last() == track);
}

/// What a scan asks for, piece by piece, and how it ends where a piece cannot be read: with
/// an error up to the header, with what was found behind it.
pub proof fn lemma_scan_reads(state: ScanState)
    ensures
        match state.phase {
            ScanPhase::Magic => state.wanted() == Some((0u64, 4u64)) && state.fed(None).phase == (
            ScanPhase::Failed { error: Error::FileTooShort }),
            ScanPhase::Riff => (state.wanted() matches Some((at, len)) && at == 0 && len == lesser(
                state.file_len as int,
                4096,
            )) && state.fed(None).phase == (ScanPhase::Failed { error: Error::RiffScan }),
            ScanPhase::Header { start } => state.wanted() == Some((start, 14u64)) && state.fed(
                None,
            ).phase == (ScanPhase::Failed { error: Error::FileHeaderCut }),
            ScanPhase::Padding { at } => state.wanted() == Some((at, 0u64)) && state.fed(None).phase
                == (ScanPhase::Failed { error: Error::HeaderPadding }),
            ScanPhase::ChunkHead { at } => state.wanted() == Some((at, 8u64)) && state.fed(None).phase
                is Done && state.fed(None).found == state.found,
            ScanPhase::Track { at, len } => state.wanted() == Some((at, len as u64)) && state.fed(
                None,
            ).phase is Done && state.fed(None).found == state.found,
            _ => state.wanted() is None && state.fed(None) == state,
        },
{
}

/// How a scan goes on where a place in the file cannot be reached: with an error up to the
/// first chunk; a chunk that cannot be passed over is read where the file stands.
pub proof fn lemma_scan_seeks(state: ScanState, position: u64)
    ensures
        match state.phase {
            ScanPhase::Riff => state.unplaced(position).phase == (ScanPhase::Failed {
                error: Error::Seek,
            }),
            ScanPhase::Header { start } => state.unplaced(position).phase == (ScanPhase::Failed {
                error: if start == 0 {
                    Error::Seek
                } else {
                    Error::SeekHeader
                },
            }),
            ScanPhase::Padding { .. } => state.unplaced(position).phase == (ScanPhase::Failed {
                error: Error::HeaderPadding,
            }),
            ScanPhase::ChunkHead { .. } => state.unplaced(position).wanted() == Some(
                (position, 8u64),
            ) && state.unplaced(position).found == state.found,
            _ => state.unplaced(position) == state,
        },
{
}

/// A scan that reads a file piece by piece looks at no chunk beyond the tracks that the
/// header counts, and when it is done it has found what is in the file.
pub proof fn lemma_scan_counts(state: ScanState, data: Option<Seq<u8>>, s: Seq<u8>)
    requires
        state.phase is ChunkHead || state.phase is Track ==> state.found.track_count
            < state.tracks_count,
    ensures
        ({
            let next = state.fed(data);
            &&& next.phase is ChunkHead || next.phase is Track ==> next.found.track_count
                < next.tracks_count
            &&& next.file_len == state.file_len
        }),
        state.phase is Done ==> outcome(state, s) == Ok::<Found, Error>(state.found),
        state.phase is Magic ==> outcome(state, s) == scanned(s),
        (state.passed().phase is ChunkHead || state.passed().phase is Track)
            ==> state.passed().found.track_count < state.tracks_count,
{
}

} // verus!
