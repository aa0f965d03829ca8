//! Figures on a file from one pass over it, track by track.
//!
//! [`FileScan`] says which bytes of the file it needs next and takes them, so
//! that a file of any size is scanned with one track in memory at a time, or with
//! several that are scanned side by side.
//! [`scan_midi_file`] scans a file that is in memory as a whole.

use vstd::prelude::*;

use crate::bytes::{be16, be32, lesser, named, place_of};
use crate::bytes::{lemma_part_numbers, lemma_part_place};
use crate::bytes::{find_name, is_named, read_be16, read_be32, MTHD, MTRK, RIFF};
use crate::cue::{last_tick, strikes, tempos};
use crate::error::Error;
use crate::fast_midi::{scan_cues, scan_track_notes_only};
use crate::loader::{changes_at, DEFAULT_TEMPO};
use crate::note::{in_order, sort_by_tick, Ticked};

verus! {

/// How many bytes of a RIFF file are searched for the header.
pub const RIFF_SCAN_BYTES: u64 = 4096;

/// The figures of a file.
#[derive(Clone, Debug)]
pub struct MidiScanResult {
    /// The number of notes.
    pub note_count: u64,
    /// The number of tracks that are there.
    pub track_count: u16,
    /// The tempo changes, each a tick with the microseconds of a quarter note,
    /// in the order of the ticks.
    pub tempo_changes: Vec<(u32, u32)>,
    /// The last tick of any track.
    pub max_tick: u32,
    /// The division word of the header.
    pub division: u16,
}

/// What has been found so far.
pub struct Found {
    pub note_count: int,
    pub track_count: int,
    pub tempos: Seq<(u32, u32)>,
    pub max_tick: u32,
    pub division: u16,
}

/// The figures of a track.
pub struct Figures {
    pub note_count: int,
    pub max_tick: u32,
    pub tempos: Seq<(u32, u32)>,
}

/// The figures of the track with these bytes.
pub open spec fn figures(track: Seq<u8>) -> Figures {
    let cues = scan_cues(track, 0, 0);
    Figures {
        note_count: strikes(cues, 256) as int,
        max_tick: last_tick(cues, 0),
        tempos: tempos(cues, 0),
    }
}

impl Found {
    /// What the figures of a track add, but for its number.
    pub open spec fn with_figures(self, figures: Figures) -> Found {
        Found {
            note_count: self.note_count + figures.note_count,
            tempos: self.tempos + figures.tempos,
            max_tick: if figures.max_tick > self.max_tick {
                figures.max_tick
            } else {
                self.max_tick
            },
            ..self
        }
    }

    /// One more track.
    pub open spec fn with_one_more(self) -> Found {
        Found { track_count: self.track_count + 1, ..self }
    }

    /// What a track adds.
    pub open spec fn with_track(self, track: Seq<u8>) -> Found {
        self.with_one_more().with_figures(figures(track))
    }

    /// What some tracks add.
    pub open spec fn with_tracks(self, tracks: Seq<Seq<u8>>) -> Found
        decreases tracks.len(),
    {
        if tracks.len() == 0 {
            self
        } else {
            self.with_track(tracks[0]).with_tracks(tracks.drop_first())
        }
    }

    /// Nothing but the division word.
    pub open spec fn nothing(division: u16) -> Found {
        Found { note_count: 0, track_count: 0, tempos: seq![], max_tick: 0, division }
    }
}

/// The data of the first `count` track chunks from `at` on that are there in full.
/// Chunks of other kinds are passed over. A track that is cut off ends the list.
pub open spec fn whole_tracks(s: Seq<u8>, at: int, count: int) -> Seq<Seq<u8>>
    decreases
        if s.len() > at {
            s.len() - at
        } else {
            0
        },
{
    if count <= 0 || at < 0 || at + 8 > s.len() {
        seq![]
    } else {
        let end = at + 8 + be32(s, at + 4);
        if !named(s, at, MTRK) {
            whole_tracks(s, end, count)
        } else if end > s.len() {
            seq![]
        } else {
            seq![s.subrange(at + 8, end)] + whole_tracks(s, end, count - 1)
        }
    }
}

/// What is found in a file with its header at `start`.
pub open spec fn scanned_from(s: Seq<u8>, start: int) -> Result<Found, Error> {
    if start + 14 > s.len() {
        Err(Error::FileHeaderCut)
    } else if !named(s, start, MTHD) {
        Err(Error::FileHeader)
    } else if be32(s, start + 4) < 6 {
        Err(Error::FileHeaderShort)
    } else {
        Ok(
            Found::nothing(be16(s, start + 12)).with_tracks(
                whole_tracks(s, start + 8 + be32(s, start + 4), be16(s, start + 10) as int),
            ),
        )
    }
}

/// What is found in a file, or why nothing is.
pub open spec fn scanned(s: Seq<u8>) -> Result<Found, Error> {
    if s.len() < 4 {
        Err(Error::FileTooShort)
    } else if named(s, 0, RIFF) {
        match place_of(s, MTHD, 0, lesser(s.len() as int, RIFF_SCAN_BYTES as int)) {
            Some(start) => scanned_from(s, start),
            None => Err(Error::RiffNoHeader),
        }
    } else if named(s, 0, MTHD) {
        scanned_from(s, 0)
    } else {
        Err(Error::NotMidiFile)
    }
}

/// The changes, with the default tempo where nothing changes at tick 0.
pub open spec fn with_default(changes: Seq<(u32, u32)>) -> Seq<(u32, u32)> {
    if changes_at(changes, 0) {
        changes
    } else {
        changes.push((0u32, DEFAULT_TEMPO))
    }
}

/// Whether `r` holds, in the order of the ticks, one of the changes at each tick
/// at which there are some.
pub open spec fn one_per_tick(changes: Seq<(u32, u32)>, r: Seq<(u32, u32)>) -> bool {
    &&& forall|i: int, j: int| 0 <= i < j < r.len() ==> (#[trigger] r[i]).0 < (#[trigger] r[j]).0
    &&& forall|i: int| 0 <= i < r.len() ==> changes.contains(#[trigger] r[i])
    &&& forall|k: int| 0 <= k < changes.len() ==> changes_at(r, (#[trigger] changes[k]).0)
}

impl MidiScanResult {
    /// Whether this is the result for what was found. Of several changes at one
    /// tick, any may be in it.
    pub open spec fn tells(self, found: Found) -> bool {
        &&& self.note_count == found.note_count
        &&& self.track_count == found.track_count
        &&& self.max_tick == found.max_tick
        &&& self.division == found.division
        &&& one_per_tick(with_default(found.tempos), self.tempo_changes@)
    }
}

/// What a scan does next.
#[derive(Clone, Copy, Debug, PartialEq, Eq, Structural)]
pub enum ScanPhase {
    /// Read the signature.
    Magic,
    /// Search the start of a RIFF file for the header.
    Riff,
    /// Read the header at `start`.
    Header { start: u64 },
    /// Pass over the rest of the header chunk, up to `at`.
    Padding { at: u64 },
    /// Read the head of the chunk at `at`.
    ChunkHead { at: u64 },
    /// Read the track data at `at`.
    Track { at: u64, len: u32 },
    /// Nothing: the scan is complete.
    Done,
    /// Nothing: the scan has failed.
    Failed { error: Error },
}

/// A scan between two reads.
pub struct ScanState {
    pub phase: ScanPhase,
    pub file_len: u64,
    pub tracks_count: u16,
    pub found: Found,
    /// How many of the tracks that were counted have not yet added their figures.
    pub owed: int,
}

/// The place `len` bytes behind `at`, or the last place there is.
pub open spec fn beyond(at: u64, len: int) -> u64 {
    if at + len > u64::MAX {
        u64::MAX
    } else {
        (at + len) as u64
    }
}

impl ScanState {
    /// Before the first read.
    pub open spec fn start(file_len: u64) -> ScanState {
        ScanState {
            phase: ScanPhase::Magic,
            file_len,
            tracks_count: 0,
            found: Found::nothing(0),
            owed: 0,
        }
    }

    /// The bytes that are needed next: where, and how many.
    pub open spec fn wanted(self) -> Option<(u64, u64)> {
        match self.phase {
            ScanPhase::Magic => Some((0, 4)),
            ScanPhase::Riff => Some(
                (
                    0,
                    if self.file_len < RIFF_SCAN_BYTES {
                        self.file_len
                    } else {
                        RIFF_SCAN_BYTES
                    },
                ),
            ),
            ScanPhase::Header { start } => Some((start, 14)),
            ScanPhase::Padding { at } => Some((at, 0)),
            ScanPhase::ChunkHead { at } => Some((at, 8)),
            ScanPhase::Track { at, len } => Some((at, len as u64)),
            ScanPhase::Done => None,
            ScanPhase::Failed { .. } => None,
        }
    }

    /// The scan in another phase.
    pub open spec fn to(self, phase: ScanPhase) -> ScanState {
        ScanState { phase, ..self }
    }

    /// The scan ends with an error.
    pub open spec fn fail(self, error: Error) -> ScanState {
        self.to(ScanPhase::Failed { error })
    }

    /// The scan goes on to the chunk at `at`, unless all tracks are there.
    pub open spec fn next_chunk(self, at: u64) -> ScanState {
        if self.found.track_count >= self.tracks_count {
            self.to(ScanPhase::Done)
        } else {
            self.to(ScanPhase::ChunkHead { at })
        }
    }

    /// The scan after the bytes that it wanted, or after they could not be read.
    pub open spec fn fed(self, data: Option<Seq<u8>>) -> ScanState {
        match self.phase {
            ScanPhase::Magic => match data {
                None => self.fail(Error::FileTooShort),
                Some(d) => if named(d, 0, RIFF) {
                    self.to(ScanPhase::Riff)
                } else if named(d, 0, MTHD) {
                    self.to(ScanPhase::Header { start: 0 })
                } else {
                    self.fail(Error::NotMidiFile)
                },
            },
            ScanPhase::Riff => match data {
                None => self.fail(Error::RiffScan),
                Some(d) => match place_of(d, MTHD, 0, d.len() as int) {
                    None => self.fail(Error::RiffNoHeader),
                    Some(start) => self.to(ScanPhase::Header { start: start as u64 }),
                },
            },
            ScanPhase::Header { start } => match data {
                None => self.fail(Error::FileHeaderCut),
                Some(d) => if !named(d, 0, MTHD) {
                    self.fail(Error::FileHeader)
                } else if be32(d, 4) < 6 {
                    self.fail(Error::FileHeaderShort)
                } else {
                    let at = beyond(start, 8 + be32(d, 4));
                    let known = ScanState {
                        tracks_count: be16(d, 10),
                        found: Found::nothing(be16(d, 12)),
                        ..self
                    };
                    if be32(d, 4) > 6 {
                        known.to(ScanPhase::Padding { at })
                    } else {
                        known.next_chunk(at)
                    }
                },
            },
            ScanPhase::Padding { at } => match data {
                None => self.fail(Error::HeaderPadding),
                Some(_) => self.next_chunk(at),
            },
            ScanPhase::ChunkHead { at } => match data {
                None => self.to(ScanPhase::Done),
                Some(d) => if named(d, 0, MTRK) {
                    self.to(ScanPhase::Track { at: beyond(at, 8), len: be32(d, 4) })
                } else {
                    self.next_chunk(beyond(at, 8 + be32(d, 4)))
                },
            },
            ScanPhase::Track { at, len } => match data {
                None => self.to(ScanPhase::Done),
                Some(d) => ScanState { found: self.found.with_track(d), ..self }.next_chunk(
                    beyond(at, len as int),
                ),
            },
            _ => self,
        }
    }

    /// The scan after the place of the bytes that it wanted could not be reached.
    /// Where that was the place of a chunk, the scan goes on at `position`, where the
    /// file stands.
    pub open spec fn unplaced(self, position: u64) -> ScanState {
        match self.phase {
            ScanPhase::Riff => self.fail(Error::Seek),
            ScanPhase::Header { start } => self.fail(
                if start == 0 {
                    Error::Seek
                } else {
                    Error::SeekHeader
                },
            ),
            ScanPhase::Padding { .. } => self.fail(Error::HeaderPadding),
            ScanPhase::ChunkHead { .. } => self.to(ScanPhase::ChunkHead { at: position }),
            _ => self,
        }
    }

    /// The scan goes on behind the track that it wanted. Its figures are to be added.
    pub open spec fn passed(self) -> ScanState {
        match self.phase {
            ScanPhase::Track { at, len } => ScanState {
                found: self.found.with_one_more(),
                owed: self.owed + 1,
                ..self
            }.next_chunk(beyond(at, len as int)),
            _ => self,
        }
    }

    /// The figures of a track are added.
    pub open spec fn added(self, figures: Figures) -> ScanState {
        ScanState { found: self.found.with_figures(figures), owed: self.owed - 1, ..self }
    }
}

/// To pass a track and to add its figures comes to the same as to scan it on the spot.
pub proof fn lemma_track_later(state: ScanState, track: Seq<u8>)
    requires
        state.phase is Track,
    ensures
        state.passed().added(figures(track)) == state.fed(Some(track)),
{
}

/// Figures can be added before or after the heads of chunks are read and other tracks
/// are passed.
pub proof fn lemma_later_order(state: ScanState, figures: Figures, data: Option<Seq<u8>>)
    ensures
        state.passed().added(figures) == state.added(figures).passed(),
        state.phase is ChunkHead ==> state.fed(data).added(figures) == state.added(figures).fed(
            data,
        ),
{
}

/// A scan of a file that is read piece by piece.
#[derive(Debug)]
pub struct FileScan {
    phase: ScanPhase,
    file_len: u64,
    tracks_count: u16,
    owed: u16,
    note_count: u64,
    track_count: u16,
    tempo_changes: Vec<(u32, u32)>,
    max_tick: u32,
    division: u16,
}

impl FileScan {
    /// Where the scan stands.
    pub closed spec fn state(self) -> ScanState {
        ScanState {
            phase: self.phase,
            file_len: self.file_len,
            tracks_count: self.tracks_count,
            found: Found {
                note_count: self.note_count as int,
                track_count: self.track_count as int,
                tempos: self.tempo_changes@,
                max_tick: self.max_tick,
                division: self.division,
            },
            owed: self.owed as int,
        }
    }

    /// A track has fewer notes than 2^32, no track is read beyond those announced, and
    /// no figures are owed before the first track.
    pub closed spec fn wf(self) -> bool {
        &&& self.note_count + self.owed * 0x1_0000_0000 <= self.track_count * 0x1_0000_0000
        &&& self.phase is Magic || self.phase is Riff || self.phase is Header ==> self.owed == 0
        &&& self.phase is ChunkHead || self.phase is Track ==> self.track_count < self.tracks_count
    }

    /// A scan before the first read of a file with `file_len` bytes.
    pub fn new(file_len: u64) -> (r: FileScan)
        ensures
            r.wf(),
            r.state() == ScanState::start(file_len),
    {
        let r = FileScan {
            phase: ScanPhase::Magic,
            file_len,
            tracks_count: 0,
            owed: 0,
            note_count: 0,
            track_count: 0,
            tempo_changes: Vec::new(),
            max_tick: 0,
            division: 0,
        };
        assert(r.tempo_changes@ =~= seq![]);
        r
    }

    /// Which bytes are needed next: where, and how many. `None` when the scan is over.
    pub fn request(&self) -> (r: Option<(u64, u64)>)
        ensures
            r == self.state().wanted(),
    {
        match self.phase {
            ScanPhase::Magic => Some((0, 4)),
            ScanPhase::Riff => Some(
                (
                    0,
                    if self.file_len < RIFF_SCAN_BYTES {
                        self.file_len
                    } else {
                        RIFF_SCAN_BYTES
                    },
                ),
            ),
            ScanPhase::Header { start } => Some((start, 14)),
            ScanPhase::Padding { at } => Some((at, 0)),
            ScanPhase::ChunkHead { at } => Some((at, 8)),
            ScanPhase::Track { at, len } => Some((at, len as u64)),
            ScanPhase::Done => None,
            ScanPhase::Failed { .. } => None,
        }
    }

    fn next_chunk(&mut self, at: u64)
        requires
            old(self).note_count + old(self).owed * 0x1_0000_0000 <= old(self).track_count
                * 0x1_0000_0000,
        ensures
            final(self).wf(),
            final(self).state() == old(self).state().next_chunk(at),
    {
        if self.track_count >= self.tracks_count {
            self.phase = ScanPhase::Done;
        } else {
            self.phase = ScanPhase::ChunkHead { at };
        }
    }

    fn fail(&mut self, error: Error)
        requires
            old(self).wf(),
        ensures
            final(self).wf(),
            final(self).state() == old(self).state().fail(error),
    {
        self.phase = ScanPhase::Failed { error };
    }

    /// Takes the bytes that were asked for, or `None` where they could not be read.
    pub fn feed(&mut self, data: Option<&[u8]>)
        requires
            old(self).wf(),
            data matches Some(d) ==> (old(self).state().wanted() matches Some(w) && d@.len()
                == w.1),
        ensures
            final(self).wf(),
            final(self).state() == old(self).state().fed(
                match data {
                    Some(d) => Some(d@),
                    None => None,
                },
            ),
    {
        match self.phase {
            ScanPhase::Magic => match data {
                None => self.fail(Error::FileTooShort),
                Some(d) => {
                    if is_named(d, 0, RIFF) {
                        self.phase = ScanPhase::Riff;
                    } else if is_named(d, 0, MTHD) {
                        self.phase = ScanPhase::Header { start: 0 };
                    } else {
                        self.fail(Error::NotMidiFile);
                    }
                },
            },
            ScanPhase::Riff => match data {
                None => self.fail(Error::RiffScan),
                Some(d) => match find_name(d, MTHD, d.len()) {
                    None => self.fail(Error::RiffNoHeader),
                    Some(start) => {
                        self.phase = ScanPhase::Header { start: start as u64 };
                    },
                },
            },
            ScanPhase::Header { start } => match data {
                None => self.fail(Error::FileHeaderCut),
                Some(d) => {
                    if !is_named(d, 0, MTHD) {
                        self.fail(Error::FileHeader);
                        return;
                    }
                    let header_len: u32 = read_be32(d, 4);
                    if header_len < 6 {
                        self.fail(Error::FileHeaderShort);
                        return;
                    }
                    self.tracks_count = read_be16(d, 10);
                    self.division = read_be16(d, 12);
                    self.note_count = 0;
                    self.track_count = 0;
                    self.tempo_changes = Vec::new();
                    self.max_tick = 0;
                    assert(self.tempo_changes@ =~= seq![]);
                    let at: u64 = start.saturating_add(8 + header_len as u64);
                    if header_len > 6 {
                        self.phase = ScanPhase::Padding { at };
                    } else {
                        self.next_chunk(at);
                    }
                },
            },
            ScanPhase::Padding { at } => match data {
                None => self.fail(Error::HeaderPadding),
                Some(_) => self.next_chunk(at),
            },
            ScanPhase::ChunkHead { at } => match data {
                None => {
                    self.phase = ScanPhase::Done;
                },
                Some(d) => {
                    let len: u32 = read_be32(d, 4);
                    if is_named(d, 0, MTRK) {
                        self.phase = ScanPhase::Track { at: at.saturating_add(8), len };
                    } else {
                        self.next_chunk(at.saturating_add(8 + len as u64));
                    }
                },
            },
            ScanPhase::Track { at, len } => match data {
                None => {
                    self.phase = ScanPhase::Done;
                },
                Some(d) => {
                    let (notes, max_tick, mut tempos) = scan_track_notes_only(d);
                    self.note_count += notes;
                    if max_tick > self.max_tick {
                        self.max_tick = max_tick;
                    }
                    self.tempo_changes.append(&mut tempos);
                    self.track_count += 1;
                    self.next_chunk(at.saturating_add(len as u64));
                },
            },
            _ => {},
        }
    }

    /// Takes note that the place of the bytes that were asked for could not be
    /// reached, and that the file stands at `position`.
    pub fn seek_failed(&mut self, position: u64)
        requires
            old(self).wf(),
        ensures
            final(self).wf(),
            final(self).state() == old(self).state().unplaced(position),
    {
        match self.phase {
            ScanPhase::Riff => self.fail(Error::Seek),
            ScanPhase::Header { start } => {
                if start == 0 {
                    self.fail(Error::Seek);
                } else {
                    self.fail(Error::SeekHeader);
                }
            },
            ScanPhase::Padding { .. } => self.fail(Error::HeaderPadding),
            ScanPhase::ChunkHead { .. } => {
                self.phase = ScanPhase::ChunkHead { at: position };
            },
            _ => {},
        }
    }

    /// Whether the bytes that are needed next are those of a track.
    pub fn wants_track(&self) -> (r: bool)
        ensures
            r == (self.state().phase is Track),
    {
        match self.phase {
            ScanPhase::Track { .. } => true,
            _ => false,
        }
    }

    /// Goes on behind the track whose bytes are needed next. The track is scanned
    /// elsewhere, with [`scan_track_notes_only`], and its figures are to be added.
    pub fn pass_track(&mut self)
        requires
            old(self).wf(),
            old(self).state().phase is Track,
        ensures
            final(self).wf(),
            final(self).state() == old(self).state().passed(),
    {
        if let ScanPhase::Track { at, len } = self.phase {
            self.owed += 1;
            self.track_count += 1;
            self.next_chunk(at.saturating_add(len as u64));
        }
    }

    /// Adds the figures of a track that was passed. The figures of several tracks are
    /// added in the order of the tracks.
    pub fn add_figures(&mut self, notes: u64, max_tick: u32, tempos: Vec<(u32, u32)>)
        requires
            old(self).wf(),
            old(self).state().owed > 0,
            notes <= u32::MAX,
        ensures
            final(self).wf(),
            final(self).state() == old(self).state().added(
                (Figures { note_count: notes as int, max_tick, tempos: tempos@ }),
            ),
    {
        let mut tempos = tempos;
        self.owed -= 1;
        self.note_count += notes;
        if max_tick > self.max_tick {
            self.max_tick = max_tick;
        }
        self.tempo_changes.append(&mut tempos);
    }

    /// The result of a scan that is over.
    pub fn finish(self) -> (r: Result<MidiScanResult, Error>)
        requires
            self.state().wanted() is None,
            self.state().owed == 0,
        ensures
            match self.state().phase {
                ScanPhase::Failed { error } => r == Err::<MidiScanResult, Error>(error),
                _ => r matches Ok(result) && result.tells(self.state().found),
            },
    {
        if let ScanPhase::Failed { error } = self.phase {
            return Err(error);
        }
        Ok(
            MidiScanResult {
                note_count: self.note_count,
                track_count: self.track_count,
                tempo_changes: settle_tempos(self.tempo_changes),
                max_tick: self.max_tick,
                division: self.division,
            },
        )
    }
}

/// Sorts tempo changes by tick and keeps one at each tick. Where there is none at
/// tick 0, the default tempo is put there.
fn settle_tempos(changes: Vec<(u32, u32)>) -> (r: Vec<(u32, u32)>)
    ensures
        one_per_tick(with_default(changes@), r@),
{
    broadcast use vstd::seq_lib::group_to_multiset_ensures;

    let ghost given = changes@;
    let mut all = changes;
    let mut i: usize = 0;
    while i < all.len() && all[i].0 != 0
        invariant
            i <= all@.len(),
            all@ == given,
            forall|k: int| 0 <= k < i ==> (#[trigger] all@[k]).0 != 0,
        decreases all@.len() - i,
    {
        i += 1;
    }
    if i == all.len() {
        all.push((0, DEFAULT_TEMPO));
    } else {
        assert(given[i as int].0 == 0);
    }
    let ghost unsorted = all@;
    assert(unsorted == with_default(given));
    sort_by_tick(&mut all);
    let mut kept: Vec<(u32, u32)> = Vec::new();
    let mut j: usize = 0;
    while j < all.len()
        invariant
            j <= all@.len(),
            in_order(all@),
            kept@.len() == 0 <==> j == 0,
            j > 0 ==> kept@.last().0 == all@[j - 1].0,
            forall|a: int, b: int|
                0 <= a < b < kept@.len() ==> (#[trigger] kept@[a]).0 < (#[trigger] kept@[b]).0,
            forall|a: int| 0 <= a < kept@.len() ==> all@.contains(#[trigger] kept@[a]),
            forall|k: int| 0 <= k < j ==> changes_at(kept@, (#[trigger] all@[k]).0),
        decreases all@.len() - j,
    {
        let change = all[j];
        let ghost before = kept@;
        assert(all@.contains(all@[j as int]));
        let new: bool = kept.len() == 0 || kept[kept.len() - 1].0 != change.0;
        if new {
            if j > 0 {
                assert(all@[j - 1].ticked() <= all@[j as int].ticked());
            }
            kept.push(change);
        }
        proof {
            assert forall|k: int| 0 <= k < j + 1 implies changes_at(
                kept@,
                (#[trigger] all@[k]).0,
            ) by {
                if k == j {
                    assert(kept@[kept@.len() - 1].0 == all@[k].0);
                } else {
                    let a = choose|a: int|
                        0 <= a < before.len() && (#[trigger] before[a]).0 == all@[k].0;
                    assert(kept@[a].0 == all@[k].0);
                }
            }
        }
        j += 1;
    }
    proof {
        assert forall|a: int| 0 <= a < kept@.len() implies unsorted.contains(#[trigger] kept@[a]) by {
            assert(all@.to_multiset().count(kept@[a]) > 0);
        }
        assert forall|k: int| 0 <= k < unsorted.len() implies changes_at(
            kept@,
            (#[trigger] unsorted[k]).0,
        ) by {
            assert(unsorted.contains(unsorted[k]));
            assert(unsorted.to_multiset().count(unsorted[k]) > 0);
            let m = choose|m: int| 0 <= m < all@.len() && all@[m] == unsorted[k];
            assert(changes_at(kept@, all@[m].0));
        }
    }
    kept
}

/// What a scan that stands here finds in the file `s`.
pub open spec fn outcome(state: ScanState, s: Seq<u8>) -> Result<Found, Error> {
    match state.phase {
        ScanPhase::Magic => scanned(s),
        ScanPhase::Riff => match place_of(
            s,
            MTHD,
            0,
            lesser(s.len() as int, RIFF_SCAN_BYTES as int),
        ) {
            Some(start) => scanned_from(s, start),
            None => Err(Error::RiffNoHeader),
        },
        ScanPhase::Header { start } => scanned_from(s, start as int),
        ScanPhase::Padding { at } => Ok(
            state.found.with_tracks(
                whole_tracks(s, at as int, state.tracks_count - state.found.track_count),
            ),
        ),
        ScanPhase::ChunkHead { at } => Ok(
            state.found.with_tracks(
                whole_tracks(s, at as int, state.tracks_count - state.found.track_count),
            ),
        ),
        ScanPhase::Track { at, len } => if at + len > s.len() {
            Ok(state.found)
        } else {
            Ok(
                state.found.with_track(s.subrange(at as int, at + len)).with_tracks(
                    whole_tracks(s, at + len, state.tracks_count - state.found.track_count - 1),
                ),
            )
        },
        ScanPhase::Done => Ok(state.found),
        ScanPhase::Failed { error } => Err(error),
    }
}

/// The bytes of the file that a scan wants, where they are there. No bytes are there
/// behind the end of the file too.
pub open spec fn piece(state: ScanState, s: Seq<u8>) -> Option<Seq<u8>> {
    match state.wanted() {
        Some((at, len)) => if state.phase is Padding {
            Some(seq![])
        } else if at + len <= s.len() {
            Some(s.subrange(at as int, at + len))
        } else {
            None
        },
        None => None,
    }
}

proof fn lemma_no_tracks_behind(s: Seq<u8>, at: int, count: int)
    ensures
        at >= s.len() || count <= 0 ==> whole_tracks(s, at, count) == Seq::<Seq<u8>>::empty(),
{
}

/// A scan that is given what it wants of a file finds what is in the file, whatever
/// piece it stands at.
pub proof fn lemma_fed_outcome(state: ScanState, s: Seq<u8>)
    requires
        state.file_len == s.len(),
        state.wanted() is Some,
        state.phase is Magic || state.phase is Riff || state.phase is Header || state.phase is Padding
            || state.found.track_count < state.tracks_count,
        state.phase is Riff ==> s.len() >= 4,
    ensures
        outcome(state.fed(piece(state, s)), s) == outcome(state, s),
{
    let (at, len) = state.wanted()->0;
    let next = state.fed(piece(state, s));
    if let ScanPhase::Padding { at } = state.phase {
        lemma_no_tracks_behind(s, at as int, state.tracks_count - state.found.track_count);
    } else if at + len <= s.len() {
        lemma_part_numbers(s, at as int, at + len, 0);
        lemma_part_numbers(s, at as int, at + len, 4);
        lemma_part_numbers(s, at as int, at + len, 10);
        lemma_part_numbers(s, at as int, at + len, 12);
        match state.phase {
            ScanPhase::Riff => {
                lemma_part_place(s, MTHD, 0, len as int);
                lemma_place_found(s, MTHD, 0, len as int);
            },
            ScanPhase::Header { start } => {
                let behind = start + 8 + be32(s, start + 4);
                lemma_no_tracks_behind(s, behind, be16(s, start + 10) as int);
                lemma_no_tracks_behind(
                    s,
                    beyond(start, 8 + be32(s, start + 4)) as int,
                    be16(s, start + 10) as int,
                );
            },
            ScanPhase::ChunkHead { at } => {
                let count = state.tracks_count - state.found.track_count;
                let behind = at + 8 + be32(s, at + 4);
                lemma_no_tracks_behind(s, behind, count);
                lemma_no_tracks_behind(s, beyond(at, 8 + be32(s, at + 4)) as int, count);
                if named(s, at as int, MTRK) && behind <= s.len() {
                    let first = s.subrange(at + 8, behind);
                    let rest = whole_tracks(s, behind, count - 1);
                    assert((seq![first] + rest).drop_first() =~= rest);
                    assert((seq![first] + rest)[0] == first);
                }
            },
            ScanPhase::Track { at, len } => {
                lemma_no_tracks_behind(
                    s,
                    at + len,
                    state.tracks_count - state.found.track_count - 1,
                );
            },
            _ => {},
        }
    }
}

proof fn lemma_place_found(s: Seq<u8>, name: u32, from: int, end: int)
    requires
        0 <= from,
        end <= s.len(),
    ensures
        place_of(s, name, from, end) matches Some(i) ==> from <= i && i + 4 <= end && named(
            s,
            i,
            name,
        ),
    decreases end - from,
{
    if from + 4 <= end {
        lemma_place_found(s, name, from + 1, end);
    }
}

/// The tempo changes of a scan start at tick 0.
pub proof fn lemma_scan_tempo_from_start(changes: Seq<(u32, u32)>, r: Seq<(u32, u32)>)
    requires
        one_per_tick(with_default(changes), r),
    ensures
        r.len() > 0,
        r[0].0 == 0,
        !changes_at(changes, 0) ==> r[0].1 == DEFAULT_TEMPO,
{
    let all = with_default(changes);
    if changes_at(changes, 0) {
        let k = choose|k: int| 0 <= k < changes.len() && (#[trigger] changes[k]).0 == 0;
        assert(changes_at(r, all[k].0));
    } else {
        assert(changes_at(r, all[changes.len() as int].0));
    }
    let i = choose|i: int| 0 <= i < r.len() && (#[trigger] r[i]).0 == 0;
    if i > 0 {
        assert(r[0].0 < r[i].0);
    }
    assert(all.contains(r[0]));
    let k = choose|k: int| 0 <= k < all.len() && all[k] == r[0];
    if !changes_at(changes, 0) && k < changes.len() {
        assert(changes[k].0 == 0);
    }
}

/// How far a scan still is from its end.
spec fn distance(state: ScanState, s: Seq<u8>) -> (int, int) {
    match state.phase {
        ScanPhase::Magic => (5, 0),
        ScanPhase::Riff => (4, 0),
        ScanPhase::Header { .. } => (3, 0),
        ScanPhase::Padding { .. } => (2, 0),
        ScanPhase::ChunkHead { at } => (
            1,
            if at <= s.len() {
                2 * (s.len() - at) + 2
            } else {
                1
            },
        ),
        ScanPhase::Track { at, .. } => (
            1,
            if at <= s.len() {
                2 * (s.len() - at) + 3
            } else {
                1
            },
        ),
        _ => (0, 0),
    }
}

/// Scans a file that is in memory.
pub fn scan_midi_file(file: &[u8]) -> (r: Result<MidiScanResult, Error>)
    ensures
        match scanned(file@) {
            Err(e) => r == Err::<MidiScanResult, Error>(e),
            Ok(found) => r matches Ok(result) && result.tells(found),
        },
{
    let len: usize = file.len();
    let mut scan = FileScan::new(len as u64);
    loop
        invariant
            len == file@.len(),
            scan.wf(),
            scan.state().file_len == len,
            scan.state().phase is Magic || scan.state().phase is Riff || scan.state().phase is Header
                || scan.state().phase is Padding || scan.state().found.track_count < scan.state().tracks_count
                || scan.state().wanted() is None,
            scan.state().phase is Riff ==> len >= 4,
            scan.state().owed == 0,
            outcome(scan.state(), file@) == scanned(file@),
        ensures
            scan.state().wanted() is None,
            scan.state().owed == 0,
        decreases distance(scan.state(), file@).0, distance(scan.state(), file@).1,
    {
        let ghost before = scan.state();
        match scan.request() {
            None => break,
            Some((at, count)) => {
                proof {
                    lemma_fed_outcome(before, file@);
                }
                if count == 0 && !scan.wants_track() {
                    let none: [u8; 0] = [];
                    assert(none@ =~= seq![]);
                    scan.feed(Some(&none));
                } else if at <= len as u64 && count <= len as u64 - at {
                    let from: usize = at as usize;
                    let to: usize = (at + count) as usize;
                    scan.feed(Some(&file[from..to]));
                } else {
                    scan.feed(None);
                }
                assert(scan.state() == before.fed(piece(before, file@)));
            },
        }
    }
    scan.finish()
}

} // verus!
