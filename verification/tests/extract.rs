use midly::error::Error;
use midly::event::{MetaMessage, MidiMessage, TrackEvent, TrackEventKind};
use midly::fast_midi::TrackIter;
use midly::index::NoteIndex;
use midly::loader::{
    extract_notes, extract_notes_from_bytes, extract_notes_indexed, has_cut_track,
    merge_track_results, parse_fast_track_notes, NoteTrackCursor,
};
use midly::mmap::{MmapEventIter, MmapSmf};
use midly::note::PackedNote;
use midly::primitive::{u15, u24, u28, u4, u7, Format, Timing};
use midly::smf::{Header, Smf};
use midly::tick::TickPoint;

fn tick(whole: i64) -> TickPoint {
    TickPoint::At { whole, past: false }
}

fn file(tracks: &[&[u8]]) -> Vec<u8> {
    let mut raw = b"MThd\x00\x00\x00\x06\x00\x01".to_vec();
    raw.extend_from_slice(&(tracks.len() as u16).to_be_bytes());
    raw.extend_from_slice(&[0, 96]);
    for track in tracks {
        raw.extend_from_slice(b"MTrk");
        raw.extend_from_slice(&(track.len() as u32).to_be_bytes());
        raw.extend_from_slice(track);
    }
    raw
}

fn midi(delta: u32, message: MidiMessage) -> TrackEvent<Vec<u8>> {
    TrackEvent { delta: u28::new(delta), kind: TrackEventKind::Midi { channel: u4::new(0), message } }
}

fn meta(delta: u32, message: MetaMessage<Vec<u8>>) -> TrackEvent<Vec<u8>> {
    TrackEvent { delta: u28::new(delta), kind: TrackEventKind::Meta(message) }
}

#[test]
fn notes_keep_low_bits() {
    let note = PackedNote::new(5, 3, 200, 255, 9);
    assert_eq!((note.key, note.velocity, note.track), (72, 127, 9));
    assert_eq!(note.duration(), 0);
}

#[test]
fn strikes_end_the_note_before() {
    let raw = file(&[&[
        0x00, 0x90, 60, 100, 0x0A, 60, 80, 0x0A, 60, 0, 0x0A, 60, 0, 0x00, 0x90, 200, 1, 0x05, 61, 7,
    ]]);
    let (notes, tempos) = extract_notes_from_bytes(&raw).unwrap();
    assert_eq!(
        notes,
        vec![
            PackedNote::new(0, 10, 60, 100, 0),
            PackedNote::new(10, 20, 60, 80, 0),
            // The key above 127 is not counted; this one is held to the end.
            PackedNote::new(35, 35, 61, 7, 0),
        ]
    );
    assert_eq!(tempos, vec![(0, 500_000)]);
}

#[test]
fn held_keys_end_with_the_track_low_keys_first() {
    let raw = file(&[&[0x00, 0x90, 70, 1, 0x00, 50, 2, 0x05, 60, 3, 0x05, 0xB0, 0, 0]]);
    let (notes, _) = extract_notes_from_bytes(&raw).unwrap();
    assert_eq!(
        notes,
        vec![
            PackedNote::new(0, 10, 50, 2, 0),
            PackedNote::new(5, 10, 60, 3, 0),
            PackedNote::new(0, 10, 70, 1, 0),
        ]
    );
}

#[test]
fn tracks_are_joined_in_order_and_first_tempos_win() {
    let first: &[u8] = &[
        0x0A, 0xFF, 0x51, 0x03, 0x00, 0x00, 0x07, // tick 10
        0x00, 0x90, 60, 1, 0x01, 60, 0, //
        0x04, 0xFF, 0x51, 0x03, 0x00, 0x00, 0x08, // tick 15
        0x00, 0xFF, 0x51, 0x04, 0x00, 0x00, 0x09, 0x00, // too long
        0x00, 0xFF, 0x51, 0x03, 0x00, 0x00, 0x00, // nothing
    ];
    let second: &[u8] = &[
        0x05, 0xFF, 0x51, 0x03, 0x00, 0x00, 0x01, // tick 5
        0x05, 0xFF, 0x51, 0x03, 0x00, 0x00, 0x02, // tick 10 once more
        0x00, 0x90, 61, 1, 0x01, 61, 0, //
    ];
    let (notes, tempos) = extract_notes_from_bytes(&file(&[first, second])).unwrap();
    assert_eq!(notes, vec![PackedNote::new(10, 11, 60, 1, 0), PackedNote::new(10, 11, 61, 1, 1)]);
    assert_eq!(tempos, vec![(0, 500_000), (5, 1), (10, 7), (15, 8)]);
}

#[test]
fn a_tempo_at_the_start_replaces_the_default() {
    let raw = file(&[&[0x00, 0xFF, 0x51, 0x03, 0x06, 0x1A, 0x80]]);
    let (_, tempos) = extract_notes_from_bytes(&raw).unwrap();
    assert_eq!(tempos, vec![(0, 400_000)]);
}

#[test]
fn extraction_fails_like_the_header() {
    assert_eq!(extract_notes_from_bytes(b"").unwrap_err(), Error::NotMidi);
    assert_eq!(extract_notes_from_bytes(b"MThd").unwrap_err(), Error::HeaderCut);
}

#[test]
fn cut_tracks_are_told_apart() {
    assert!(has_cut_track(&file(&[&[0x00, 0x90, 60, 1], &[0x00, 0xFF]])));
    assert!(!has_cut_track(&file(&[&[0x00, 0x90, 60, 1], &[0x00, 0xFF, 0x2F, 0x00]])));
    assert!(!has_cut_track(b"no file"));
}

#[test]
fn parsed_files_give_the_same_notes() {
    let track: &[u8] = &[
        0x00, 0xFF, 0x51, 0x03, 0x06, 0x1A, 0x80, 0x0A, 0x90, 60, 100, 0x81, 0x00, 0x80, 60, 0,
        0x00, 0xFF, 0x2F, 0x00,
    ];
    let raw = file(&[track, track]);
    let smf = MmapSmf::parse(&raw).unwrap().to_owned();
    assert_eq!(extract_notes(&smf), extract_notes_from_bytes(&raw).unwrap());
    assert_eq!(extract_notes(&smf).0.len(), 2);
}

#[test]
fn parsed_files_with_quiet_notes() {
    let smf = Smf {
        header: Header { format: Format::SingleTrack, timing: Timing::Metrical(u15::new(96)) },
        tracks: vec![vec![
            midi(1, MidiMessage::NoteOn { key: 60, vel: u7::new(5) }),
            midi(1, MidiMessage::NoteOn { key: 60, vel: u7::new(0) }),
            meta(1, MetaMessage::Tempo(u24::new(300_000))),
            meta(1, MetaMessage::Tempo(u24::new(0))),
            meta(1, MetaMessage::Text(b"x".to_vec())),
            midi(1, MidiMessage::ProgramChange { program: u7::new(1) }),
            midi(1, MidiMessage::NoteOff { key: 60, vel: u7::new(0) }),
        ]],
    };
    let (notes, tempos) = extract_notes(&smf);
    assert_eq!(notes, vec![PackedNote::new(1, 2, 60, 5, 0)]);
    assert_eq!(tempos, vec![(0, 500_000), (3, 300_000)]);

    let (index, tempos) = extract_notes_indexed(&smf, 0);
    assert_eq!(index.notes(), &notes[..]);
    assert_eq!(tempos.len(), 2);
}

#[test]
fn single_tracks_can_be_merged_by_hand() {
    let bytes = [0x00, 0x90, 60, 1, 0x05, 60, 0];
    let one = parse_fast_track_notes(TrackIter::new(&bytes), 4);
    assert_eq!(one.0, vec![PackedNote::new(0, 5, 60, 1, 4)]);
    let (notes, tempos) = merge_track_results(&vec![one, (vec![], vec![(3, 9), (3, 8)])]);
    assert_eq!(notes.len(), 1);
    assert_eq!(tempos, vec![(0, 500_000), (3, 9)]);
}

#[test]
fn cursors_start_with_nothing_held() {
    let mut cursor = NoteTrackCursor::new(MmapEventIter::new(&[0x00, 0x90, 60, 1]), 3);
    assert_eq!(cursor.current_tick(), 0);
    assert!(cursor.close_all_notes().is_empty());
}

#[test]
fn the_index_sorts_notes() {
    let notes = vec![
        PackedNote::new(500, 510, 1, 1, 0),
        PackedNote::new(0, 900, 2, 1, 0),
        PackedNote::new(250, 260, 3, 1, 0),
    ];
    let index = NoteIndex::build(notes, 100);
    let starts: Vec<u32> = index.notes().iter().map(|n| n.start_tick).collect();
    assert_eq!(starts, vec![0, 250, 500]);
    assert_eq!(index.max_end_tick(), 900);
}

#[test]
fn start_indices() {
    let notes: Vec<PackedNote> =
        [0u32, 100, 150, 350, 600].iter().map(|&s| PackedNote::new(s, s + 40, 1, 1, 0)).collect();
    let index = NoteIndex::build(notes, 100);
    assert_eq!(index.get_start_index(tick(-5)), 0);
    assert_eq!(index.get_start_index(tick(0)), 0);
    assert_eq!(index.get_start_index(TickPoint::At { whole: 0, past: true }), 0);
    assert_eq!(index.get_start_index(tick(299)), 0);
    assert_eq!(index.get_start_index(tick(300)), 1);
    assert_eq!(index.get_start_index(tick(400)), 3);
    assert_eq!(index.get_start_index(tick(700)), 4);
    assert_eq!(index.get_start_index(tick(800)), 5);
    assert_eq!(index.get_start_index(tick(1 << 40)), 5);
    assert_eq!(index.get_start_index(TickPoint::Undefined), 0);
}

#[test]
fn queries_miss_only_long_notes() {
    let notes = vec![
        PackedNote::new(0, 1000, 1, 1, 0),
        PackedNote::new(300, 500, 2, 1, 0),
        PackedNote::new(500, 600, 3, 1, 0),
    ];
    let index = NoteIndex::build(notes, 100);
    let keys: Vec<u8> = index.query_range(tick(500), tick(500)).iter().map(|n| n.key).collect();
    // The first note lasts ten chunks and began long before.
    assert_eq!(keys, vec![2, 3]);
    assert!(index.query_range(TickPoint::Undefined, tick(500)).is_empty());
    assert!(index.query_range(tick(0), TickPoint::Undefined).is_empty());
    assert_eq!(index.query_range(tick(0), tick(1 << 40)).len(), 3);
}
