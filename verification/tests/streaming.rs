use midly::error::Error;
use midly::loader::extract_notes_from_bytes;
use midly::note::PackedNote;
use midly::primitive::{Format, Fps, Timing};
use midly::streaming::{begins_cut, StreamingNoteLoader};
use midly::tick::TickPoint;

fn file(division: u16, tracks: &[&[u8]]) -> Vec<u8> {
    let mut raw = b"MThd\x00\x00\x00\x06\x00\x01".to_vec();
    raw.extend_from_slice(&(tracks.len() as u16).to_be_bytes());
    raw.extend_from_slice(&division.to_be_bytes());
    for track in tracks {
        raw.extend_from_slice(b"MTrk");
        raw.extend_from_slice(&(track.len() as u32).to_be_bytes());
        raw.extend_from_slice(track);
    }
    raw
}

fn at(x: f32) -> TickPoint {
    TickPoint::At { whole: x.floor() as i64, past: x != x.floor() }
}

// The window of a frame, as (current, limit, min_end).
fn window(current: f32, screen: f32) -> (TickPoint, TickPoint, TickPoint) {
    (at(current), at(current + screen + screen), at((current - screen * 2.0).max(0.0)))
}

const NEAR: &[u8] = &[0x0A, 0x90, 60, 100, 0x0A, 60, 0, 0x0A, 61, 90, 0x0A, 61, 0];
const FAR: &[u8] = &[0x86, 0x50, 0x90, 70, 50, 0x0A, 70, 0];

#[test]
fn loading_follows_the_window() {
    let raw = file(96, &[NEAR, FAR]);
    let mut loader = StreamingNoteLoader::from_mmap(&raw).unwrap();
    assert_eq!(loader.header().format, Format::Parallel);
    assert_eq!(loader.division(), 96);
    let stats = loader.memory_stats();
    assert_eq!((stats.num_tracks, stats.heap_size, stats.finished_notes_count), (2, 2, 0));
    assert!(stats.frame_notes_capacity >= 2048);

    // Up to tick 25 the first note has ended; a track that starts late is no obstacle.
    let (current, limit, min_end) = window(15.0, 5.0);
    assert!(loader.can_advance_to(limit.clamp()));
    let (notes, keys) = loader.prepare_frame(current, limit, min_end);
    assert_eq!(notes, &[PackedNote::new(10, 20, 60, 100, 0)]);
    assert_eq!(keys[60], Some(0));
    assert_eq!(keys[61], None);

    // Then the second note is held.
    let (current, limit, min_end) = window(25.0, 5.0);
    let (notes, keys) = loader.prepare_frame(current, limit, min_end);
    assert_eq!(
        notes,
        &[PackedNote::new(10, 20, 60, 100, 0), PackedNote::new(30, 35, 61, 90, 0)]
    );
    assert_eq!(keys.iter().flatten().count(), 0);

    // Far behind, the old notes are forgotten.
    let (current, limit, min_end) = window(840.0, 10.0);
    let (notes, keys) = loader.prepare_frame(current, limit, min_end);
    assert_eq!(notes, &[PackedNote::new(848, 858, 70, 50, 1)]);
    assert_eq!(keys.iter().flatten().count(), 0);
    assert_eq!(loader.finished_notes_count(), 1);
    assert_eq!(loader.memory_stats().heap_size, 0);
    // The room for a frame is used again.
    assert!(loader.memory_stats().frame_notes_capacity >= 2048);
}

#[test]
fn reading_everything_finishes_all_notes() {
    let raw = file(96, &[NEAR, FAR]);
    let mut loader = StreamingNoteLoader::from_mmap(&raw).unwrap();
    assert!(loader.can_advance_to(u32::MAX));
    assert_eq!(loader.parse_all(), 3);
    let stats = loader.memory_stats();
    assert_eq!((stats.heap_size, stats.finished_notes_count), (0, 3));
    assert!(stats.finished_notes_capacity >= 3);
    assert_eq!(loader.parse_all(), 3);
    assert_eq!(extract_notes_from_bytes(&raw).unwrap().0.len(), 3);
}

#[test]
fn going_in_stages_is_going_at_once() {
    let raw = file(96, &[NEAR, FAR]);
    let mut stages = StreamingNoteLoader::from_mmap(&raw).unwrap();
    let mut at_once = StreamingNoteLoader::from_mmap(&raw).unwrap();
    for current in [0.0, 3.5, 12.0, 28.0] {
        let (current, limit, _) = window(current, 6.0);
        stages.prepare_frame(current, limit, at(0.0));
    }
    let (current, limit, min_end) = window(30.0, 6.0);
    let (notes, keys) = stages.prepare_frame(current, limit, min_end);
    let (others, other_keys) = at_once.prepare_frame(current, limit, min_end);
    assert_eq!(notes, others);
    assert_eq!(keys, other_keys);
}

#[test]
fn the_number_of_finished_notes_is_limited() {
    let mut track = Vec::new();
    for _ in 0..50 {
        track.extend_from_slice(&[0x01, 0x90, 60, 1, 0x01, 60, 0]);
    }
    let raw = file(96, &[&track]);
    let mut loader = StreamingNoteLoader::from_mmap(&raw).unwrap();
    loader.set_max_finished_notes(8);
    assert_eq!(loader.parse_all(), 8);
    for (limit, left) in [(0, 0), (1, 1), (3, 3), (4, 4), (9, 8), (49, 38), (50, 50)] {
        let mut loader = StreamingNoteLoader::from_mmap(&raw).unwrap();
        loader.set_max_finished_notes(limit);
        assert_eq!(loader.parse_all(), left, "{}", limit);
        assert_eq!(loader.finished_notes_count(), left);
        assert_eq!(loader.parse_all(), left);
    }
}

#[test]
fn a_lower_limit_holds_from_the_next_reading_on() {
    let mut track = Vec::new();
    for key in 0..20 {
        track.extend_from_slice(&[0x01, 0x90, key, 1, 0x01, key, 0]);
    }
    let raw = file(96, &[&track]);
    let mut loader = StreamingNoteLoader::from_mmap(&raw).unwrap();
    assert_eq!(loader.parse_all(), 20);
    loader.set_max_finished_notes(2);
    assert_eq!(loader.finished_notes_count(), 20);
    let (notes, _) = loader.prepare_frame(at(40.0), at(60.0), at(0.0));
    assert_eq!(notes, &[PackedNote::new(37, 38, 18, 1, 0), PackedNote::new(39, 40, 19, 1, 0)]);
    assert_eq!(loader.finished_notes_count(), 2);
    loader.set_max_finished_notes(0);
    assert_eq!(loader.parse_all(), 0);
}

#[test]
fn the_last_of_two_notes_on_a_key_sounds() {
    let first: &[u8] = &[0x00, 0x90, 60, 1, 0x14, 60, 0];
    let second: &[u8] = &[0x05, 0x90, 60, 1, 0x05, 60, 0];
    let raw = file(96, &[first, second]);
    let mut loader = StreamingNoteLoader::from_mmap(&raw).unwrap();
    let (current, limit, min_end) = window(7.0, 20.0);
    let (notes, keys) = loader.prepare_frame(current, limit, min_end);
    assert_eq!(
        notes,
        &[PackedNote::new(5, 10, 60, 1, 1), PackedNote::new(0, 20, 60, 1, 0)]
    );
    assert_eq!(keys[60], Some(0));
}

#[test]
fn events_at_one_tick_come_in_the_order_of_the_tracks() {
    let track: &[u8] = &[0x01, 0x90, 60, 1, 0x01, 60, 0];
    let raw = file(96, &[track, track, track]);
    let mut loader = StreamingNoteLoader::from_mmap(&raw).unwrap();
    let (current, limit, min_end) = window(1.0, 10.0);
    let (notes, _) = loader.prepare_frame(current, limit, min_end);
    let tracks: Vec<u16> = notes.iter().map(|n| n.track).collect();
    assert_eq!(tracks, vec![0, 1, 2]);
}

#[test]
fn a_frame_without_a_place_reads_nothing_ahead() {
    let raw = file(96, &[&[0x00, 0x90, 60, 1, 0x05, 60, 0]]);
    let mut loader = StreamingNoteLoader::from_mmap(&raw).unwrap();
    let nowhere = TickPoint::Undefined;
    let (notes, keys) = loader.prepare_frame(nowhere, nowhere, at(0.0));
    assert_eq!(notes, &[PackedNote::new(0, 0, 60, 1, 0)]);
    assert_eq!(keys.iter().flatten().count(), 0);
}

#[test]
fn frames_are_bounded() {
    let mut track = Vec::new();
    for _ in 0..10_050 {
        track.extend_from_slice(&[0x00, 0x90, 60, 1, 0x00, 60, 0]);
    }
    let raw = file(96, &[&track]);
    let mut loader = StreamingNoteLoader::from_mmap(&raw).unwrap();
    let (current, limit, min_end) = window(0.0, 10.0);
    let (notes, keys) = loader.prepare_frame(current, limit, min_end);
    assert_eq!(notes.len(), 10_000);
    assert_eq!(keys[60], Some(0));
    assert_eq!(loader.finished_notes_count(), 10_050);
}

#[test]
fn timecode_divisions() {
    let raw = file(0xE750, &[]);
    let loader = StreamingNoteLoader::from_mmap(&raw).unwrap();
    assert_eq!(loader.division(), 80);
    assert_eq!(loader.header().timing, Timing::Timecode(Fps::Fps25, 80));
}

#[test]
fn streaming_fails_like_the_header() {
    assert_eq!(StreamingNoteLoader::from_mmap(b"x").unwrap_err(), Error::NotMidi);
}

#[test]
fn cut_meta_events_stand_in_the_way() {
    assert!(begins_cut(&file(96, &[NEAR, &[0x00, 0xFF]])));
    let raw = file(96, &[&[0x64, 0x90, 60, 1, 0x00, 0xFF]]);
    assert!(!begins_cut(&raw));
    let mut loader = StreamingNoteLoader::from_mmap(&raw).unwrap();
    assert!(loader.can_advance_to(99));
    assert!(!loader.can_advance_to(100));
    let (current, limit, min_end) = window(0.0, 49.0);
    let (notes, _) = loader.prepare_frame(current, limit, min_end);
    assert!(notes.is_empty());
}
