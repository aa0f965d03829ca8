use midly::event::{MidiMessage, TrackEvent, TrackEventKind};
use midly::index::NoteIndex;
use midly::loader::extract_notes;
use midly::note::PackedNote;
use midly::primitive::{u15, u28, u4, u7, Format, Timing};
use midly::smf::{Header, Smf};
use midly::tick::TickPoint;

fn at(x: f32) -> TickPoint {
    if x.is_nan() {
        TickPoint::Undefined
    } else {
        TickPoint::At { whole: x.floor() as i64, past: x != x.floor() }
    }
}

fn bpm(microseconds: u32) -> f32 {
    60_000_000.0 / microseconds as f32
}

#[test]
fn test_packed_note_size() {
    // Verify the packed size is 12 bytes
    assert_eq!(core::mem::size_of::<PackedNote>(), 12);
}

#[test]
fn test_packed_note_new() {
    let note = PackedNote::new(100, 200, 60, 100, 0);
    let start_tick = note.start_tick;
    let end_tick = note.end_tick;
    let key = note.key;
    let velocity = note.velocity;
    let track = note.track;
    assert_eq!(start_tick, 100);
    assert_eq!(end_tick, 200);
    assert_eq!(key, 60);
    assert_eq!(velocity, 100);
    assert_eq!(track, 0);
}

#[test]
fn test_packed_note_duration() {
    let note = PackedNote::new(100, 250, 60, 100, 0);
    assert_eq!(note.duration(), 150);
}

#[test]
fn test_packed_note_overlaps() {
    let note = PackedNote::new(100, 200, 60, 100, 0);

    // Overlapping ranges
    assert!(note.overlaps(at(50.0), at(150.0)));
    assert!(note.overlaps(at(150.0), at(250.0)));
    assert!(note.overlaps(at(120.0), at(180.0)));
    assert!(note.overlaps(at(100.0), at(200.0)));

    // Non-overlapping ranges
    assert!(!note.overlaps(at(0.0), at(50.0)));
    assert!(!note.overlaps(at(250.0), at(300.0)));
}

#[test]
fn test_note_index_build() {
    let notes = vec![
        PackedNote::new(0, 100, 60, 100, 0),
        PackedNote::new(50, 150, 64, 100, 0),
        PackedNote::new(200, 300, 67, 100, 1),
    ];

    let index = NoteIndex::build(notes, 100);

    assert_eq!(index.len(), 3);
    assert_eq!(index.max_end_tick(), 300);
    assert!(!index.is_empty());
}

#[test]
fn test_note_index_query_range() {
    let notes = vec![
        PackedNote::new(0, 100, 60, 100, 0),
        PackedNote::new(50, 150, 64, 100, 0),
        PackedNote::new(200, 300, 67, 100, 1),
        PackedNote::new(400, 500, 72, 100, 0),
    ];

    let index = NoteIndex::build(notes, 100);

    // Query range 25-175 should find first 2 notes
    let results = index.query_range(at(25.0), at(175.0));
    assert_eq!(results.len(), 2);
    let key0 = results[0].key;
    let key1 = results[1].key;
    assert_eq!(key0, 60);
    assert_eq!(key1, 64);

    // Query range 150-250 should find note 2 (spans 50-150) and note 3 (200-300)
    let results = index.query_range(at(150.0), at(250.0));
    assert_eq!(results.len(), 2);
}

#[test]
fn test_note_index_empty() {
    let index = NoteIndex::build(vec![], 100);
    assert!(index.is_empty());
    assert_eq!(index.len(), 0);
    assert_eq!(index.max_end_tick(), 0);
}

#[test]
fn test_extract_notes_smf() {
    // Create a simple SMF with one track containing note events
    let smf = Smf {
        header: Header {
            format: Format::Parallel,
            timing: Timing::Metrical(u15::new(480)),
        },
        tracks: vec![vec![
            // Note on at tick 0
            TrackEvent {
                delta: u28::new(0),
                kind: TrackEventKind::Midi {
                    channel: u4::new(0),
                    message: MidiMessage::NoteOn {
                        key: u7::new(60).as_int(),
                        vel: u7::new(100),
                    },
                },
            },
            // Note off at tick 480
            TrackEvent {
                delta: u28::new(480),
                kind: TrackEventKind::Midi {
                    channel: u4::new(0),
                    message: MidiMessage::NoteOff {
                        key: u7::new(60).as_int(),
                        vel: u7::new(0),
                    },
                },
            },
        ]],
    };

    let (notes, tempo_changes) = extract_notes(&smf);

    assert_eq!(notes.len(), 1);
    let start_tick = notes[0].start_tick;
    let end_tick = notes[0].end_tick;
    let key = notes[0].key;
    let velocity = notes[0].velocity;
    let track = notes[0].track;
    assert_eq!(start_tick, 0);
    assert_eq!(end_tick, 480);
    assert_eq!(key, 60);
    assert_eq!(velocity, 100);
    assert_eq!(track, 0);

    // Should have default tempo
    assert_eq!(tempo_changes.len(), 1);
    assert_eq!((tempo_changes[0].0, bpm(tempo_changes[0].1)), (0, 120.0));
}

#[test]
fn notes_behind_the_last_chunk_are_found() {
    // It starts at 1000, and the index ends with the last end, at 10.
    let note = PackedNote::new(1000, 10, 60, 100, 0);
    let index = NoteIndex::build(vec![note], 100);
    assert_eq!(index.max_end_tick(), 10);
    assert_eq!(index.get_start_index(at(5.0)), 0);
    assert_eq!(index.query_range(at(5.0), at(2000.0)), vec![note]);
    let first = PackedNote::new(3, 10, 61, 100, 0);
    let index = NoteIndex::build(vec![note, first], 1);
    assert_eq!(index.get_start_index(at(5.0)), 0);
    assert_eq!(index.get_start_index(at(10.0)), 1);
    assert_eq!(index.get_start_index(at(12.0)), 2);
    let index = NoteIndex::build(vec![PackedNote::new(7, 0, 60, 100, 0)], 100);
    assert_eq!(index.get_start_index(at(1.0)), 0);
}
